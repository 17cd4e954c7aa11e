//! The Markdown codec: a deterministic encoder from the document model to
//! the fixed text grammar, and a line-oriented decoder that reads the same
//! grammar back, degrading gracefully on malformed input.

use vstd::prelude::*;
use vstd::string::StringExecFns;

use crate::modell::{
    Art, Eintrag, EintragAnsicht, Person, PersonAnsicht, Protokoll, ProtokollAnsicht, Sicherheit,
};
use crate::text::{
    enthaelt, enthaelt_exec, ersetze_alle, ersetze_spec, erstes_vorkommen, finde_ab, gestreift,
    getrimmt, hat_praefix, ist_praefix, kommt_vor_bei, lemma_erstes_vorkommen, lemma_letzte_pos,
    lemma_vorkommen_eindeutig, letzte_pos, letzte_pos_exec, streife_links_spec, streife_praefixe,
    streife_praefixe_exec, streife_rechts_spec, teilbereich, teile, teile_spec, text_von,
    trim_spec, verbinden, verbinden_spec, zeichen_gleich, zeichen_von, zeilen, zeilen_spec,
};

verus! {

/// The fixed attribution line closing every encoded document.
pub open spec fn attribution_spec() -> Seq<char> {
    "*Erstellt mit MZProtokoll von Marcel Zimmer — [www.marcelzimmer.de](https://www.marcelzimmer.de) | [X @marcelzimmer](https://x.com/marcelzimmer) | [GitHub @marcelzimmer](https://github.com/marcelzimmer)*\n"@
}

/// Escaping of a table cell: literal pipes are written `\|`.
pub open spec fn zelle_spec(s: Seq<char>) -> Seq<char> {
    ersetze_spec(s, "|"@, "\\|"@)
}

/// Escaping of the note cell: line breaks become the ` <br> ` token,
/// then pipes are escaped.
pub open spec fn notiz_zelle_spec(s: Seq<char>) -> Seq<char> {
    zelle_spec(ersetze_spec(s, "\n"@, " <br> "@))
}

/// A person as written in the text: `Name [Code]`, the code segment
/// omitted when the code is empty.
pub open spec fn person_zeile_spec(p: PersonAnsicht) -> Seq<char> {
    if p.kuerzel.len() == 0 {
        p.name
    } else {
        p.name + " ["@ + p.kuerzel + "]"@
    }
}

/// Does any person of the list carry a name?
pub open spec fn hat_person(liste: Seq<PersonAnsicht>) -> bool {
    exists|i: int| 0 <= i < liste.len() && liste[i].name.len() > 0
}

/// The bulleted lines of one people list; persons without a name are
/// filtered out.
pub open spec fn personen_zeilen_spec(liste: Seq<PersonAnsicht>) -> Seq<char>
    decreases liste.len(),
{
    if liste.len() == 0 {
        Seq::empty()
    } else {
        (if liste[0].name.len() > 0 {
            "- "@ + person_zeile_spec(liste[0]) + "\n"@
        } else {
            Seq::<char>::empty()
        }) + personen_zeilen_spec(liste.drop_first())
    }
}

pub proof fn lemma_personen_zeilen_anhaengen(liste: Seq<PersonAnsicht>, p: PersonAnsicht)
    ensures
        personen_zeilen_spec(liste.push(p)) == personen_zeilen_spec(liste) + (if p.name.len() > 0 {
            "- "@ + person_zeile_spec(p) + "\n"@
        } else {
            Seq::<char>::empty()
        }),
    decreases liste.len(),
{
    let erweitert = liste.push(p);
    let zeile_p: Seq<char> = if p.name.len() > 0 {
        "- "@ + person_zeile_spec(p) + "\n"@
    } else {
        Seq::<char>::empty()
    };
    if liste.len() == 0 {
        assert(erweitert[0] == p);
        assert(erweitert.drop_first() =~= Seq::<PersonAnsicht>::empty());
        assert(personen_zeilen_spec(erweitert) == zeile_p + personen_zeilen_spec(
            erweitert.drop_first(),
        ));
        assert(zeile_p + Seq::<char>::empty() =~= zeile_p);
        assert(Seq::<char>::empty() + zeile_p =~= zeile_p);
    } else {
        let zeile_0: Seq<char> = if liste[0].name.len() > 0 {
            "- "@ + person_zeile_spec(liste[0]) + "\n"@
        } else {
            Seq::<char>::empty()
        };
        assert(erweitert[0] == liste[0]);
        assert(erweitert.drop_first() =~= liste.drop_first().push(p));
        lemma_personen_zeilen_anhaengen(liste.drop_first(), p);
        assert(personen_zeilen_spec(erweitert) == zeile_0 + (personen_zeilen_spec(
            liste.drop_first(),
        ) + zeile_p));
        assert(zeile_0 + (personen_zeilen_spec(liste.drop_first()) + zeile_p) =~= (zeile_0
            + personen_zeilen_spec(liste.drop_first())) + zeile_p);
    }
}

/// One people section: heading plus bulleted lines, omitted entirely when
/// no listed person has a name.
pub open spec fn personen_abschnitt_spec(ueberschrift: Seq<char>, liste: Seq<PersonAnsicht>) -> Seq<
    char,
> {
    if hat_person(liste) {
        "## "@ + ueberschrift + "\n\n"@ + personen_zeilen_spec(liste) + "\n"@
    } else {
        Seq::empty()
    }
}

/// A list in which no person has a name contributes no lines, so its
/// whole section is omitted from the encoded text.
pub proof fn lemma_abschnitt_leer(ueberschrift: Seq<char>, liste: Seq<PersonAnsicht>)
    requires
        forall|i: int| 0 <= i < liste.len() ==> #[trigger] liste[i].name.len() == 0,
    ensures
        personen_abschnitt_spec(ueberschrift, liste) == Seq::<char>::empty(),
{
}

/// The classification checkbox lines, one per level in the fixed order,
/// exactly the active one checked.
pub open spec fn klass_zeilen_spec(stufen: Seq<Sicherheit>, aktiv: Sicherheit) -> Seq<char>
    decreases stufen.len(),
{
    if stufen.len() == 0 {
        Seq::empty()
    } else {
        (if stufen[0] == aktiv {
            "- [x] "@
        } else {
            "- [ ] "@
        }) + stufen[0].label_spec() + "\n"@ + klass_zeilen_spec(stufen.drop_first(), aktiv)
    }
}

#[verifier::rlimit(60)]
pub proof fn lemma_klass_zeilen_anhaengen(stufen: Seq<Sicherheit>, s: Sicherheit, aktiv: Sicherheit)
    ensures
        klass_zeilen_spec(stufen.push(s), aktiv) == klass_zeilen_spec(stufen, aktiv) + (if s
            == aktiv {
            "- [x] "@
        } else {
            "- [ ] "@
        }) + s.label_spec() + "\n"@,
    decreases stufen.len(),
{
    let erweitert = stufen.push(s);
    let kasten: Seq<char> = if s == aktiv {
        "- [x] "@
    } else {
        "- [ ] "@
    };
    let zeile_s = kasten + s.label_spec() + "\n"@;
    if stufen.len() == 0 {
        assert(erweitert[0] == s);
        assert(erweitert.drop_first() =~= Seq::<Sicherheit>::empty());
        assert(klass_zeilen_spec(erweitert, aktiv) == zeile_s + klass_zeilen_spec(
            erweitert.drop_first(),
            aktiv,
        ));
        assert(zeile_s + Seq::<char>::empty() =~= zeile_s);
        assert(Seq::<char>::empty() + kasten =~= kasten);
    } else {
        let kasten_0: Seq<char> = if stufen[0] == aktiv {
            "- [x] "@
        } else {
            "- [ ] "@
        };
        let zeile_0 = kasten_0 + stufen[0].label_spec() + "\n"@;
        assert(erweitert[0] == stufen[0]);
        assert(erweitert.drop_first() =~= stufen.drop_first().push(s));
        lemma_klass_zeilen_anhaengen(stufen.drop_first(), s, aktiv);
        assert(klass_zeilen_spec(erweitert, aktiv) == zeile_0 + (klass_zeilen_spec(
            stufen.drop_first(),
            aktiv,
        ) + kasten + s.label_spec() + "\n"@));
        assert(zeile_0 + (klass_zeilen_spec(stufen.drop_first(), aktiv) + kasten + s.label_spec()
            + "\n"@) =~= (zeile_0 + klass_zeilen_spec(stufen.drop_first(), aktiv)) + kasten
            + s.label_spec() + "\n"@);
    }
}

/// Is any entry of the list non-empty, so that the entries table is
/// written at all?
pub open spec fn hat_eintrag(es: Seq<EintragAnsicht>) -> bool {
    exists|i: int| 0 <= i < es.len() && !(#[trigger] es[i]).ist_leer()
}

/// One data row of the entries table; every cell value escapes its
/// literal pipes.
pub open spec fn eintrag_zeile_spec(e: EintragAnsicht) -> Seq<char> {
    "| "@ + zelle_spec(e.punkt) + " | "@ + e.art.selected_label_spec() + " | "@ + notiz_zelle_spec(
        e.notiz,
    ) + " | "@ + zelle_spec(e.kuemmerer) + " | "@ + zelle_spec(e.bis) + " |\n"@
}

/// The data rows of the entries table; empty entries are filtered out.
pub open spec fn eintrag_zeilen_spec(es: Seq<EintragAnsicht>) -> Seq<char>
    decreases es.len(),
{
    if es.len() == 0 {
        Seq::empty()
    } else {
        (if !es[0].ist_leer() {
            eintrag_zeile_spec(es[0])
        } else {
            Seq::<char>::empty()
        }) + eintrag_zeilen_spec(es.drop_first())
    }
}

pub proof fn lemma_eintrag_zeilen_anhaengen(es: Seq<EintragAnsicht>, e: EintragAnsicht)
    ensures
        eintrag_zeilen_spec(es.push(e)) == eintrag_zeilen_spec(es) + (if !e.ist_leer() {
            eintrag_zeile_spec(e)
        } else {
            Seq::<char>::empty()
        }),
    decreases es.len(),
{
    let erweitert = es.push(e);
    let zeile_e: Seq<char> = if !e.ist_leer() {
        eintrag_zeile_spec(e)
    } else {
        Seq::<char>::empty()
    };
    if es.len() == 0 {
        assert(erweitert[0] == e);
        assert(erweitert.drop_first() =~= Seq::<EintragAnsicht>::empty());
        assert(eintrag_zeilen_spec(erweitert) == zeile_e + eintrag_zeilen_spec(
            erweitert.drop_first(),
        ));
        assert(zeile_e + Seq::<char>::empty() =~= zeile_e);
        assert(Seq::<char>::empty() + zeile_e =~= zeile_e);
    } else {
        let zeile_0: Seq<char> = if !es[0].ist_leer() {
            eintrag_zeile_spec(es[0])
        } else {
            Seq::<char>::empty()
        };
        assert(erweitert[0] == es[0]);
        assert(erweitert.drop_first() =~= es.drop_first().push(e));
        lemma_eintrag_zeilen_anhaengen(es.drop_first(), e);
        assert(eintrag_zeilen_spec(erweitert) == zeile_0 + (eintrag_zeilen_spec(es.drop_first())
            + zeile_e));
        assert(zeile_0 + (eintrag_zeilen_spec(es.drop_first()) + zeile_e) =~= (zeile_0
            + eintrag_zeilen_spec(es.drop_first())) + zeile_e);
    }
}

/// The project block, present only when a project name is set.
pub open spec fn projekt_teil_spec(d: ProtokollAnsicht) -> Seq<char> {
    if d.projekt.len() > 0 {
        "**Projekt:** "@ + d.projekt + "\n\n"@
    } else {
        Seq::empty()
    }
}

/// The metadata line joining date and location, omitted when both are
/// empty.
pub open spec fn meta_teil_spec(d: ProtokollAnsicht) -> Seq<char> {
    if d.datum_text.len() > 0 && d.ort.len() > 0 {
        "**Datum:** "@ + d.datum_text + " | "@ + "**Ort:** "@ + d.ort + "\n\n"@
    } else if d.datum_text.len() > 0 {
        "**Datum:** "@ + d.datum_text + "\n\n"@
    } else if d.ort.len() > 0 {
        "**Ort:** "@ + d.ort + "\n\n"@
    } else {
        Seq::empty()
    }
}

/// The protocol-author section, omitted when the author has no name.
pub open spec fn protokollant_teil_spec(d: ProtokollAnsicht) -> Seq<char> {
    if d.protokollant.name.len() > 0 {
        "## Protokollführer\n\n"@ + person_zeile_spec(d.protokollant) + "\n\n"@
    } else {
        Seq::empty()
    }
}

/// The meeting-description section; the body is included only when set.
pub open spec fn ueber_teil_spec(d: ProtokollAnsicht) -> Seq<char> {
    "## Über dieses Meeting\n\n"@ + if d.ueber_meeting.len() > 0 {
        d.ueber_meeting + "\n\n"@
    } else {
        Seq::empty()
    }
}

/// The two status checkbox lines; at most one is checked.
pub open spec fn status_teil_spec(d: ProtokollAnsicht) -> Seq<char> {
    "## Status\n\n"@ + (if d.ist_entwurf {
        "- [x] Entwurf\n- [ ] Freigegeben\n"@
    } else if d.ist_freigegeben {
        "- [ ] Entwurf\n- [x] Freigegeben\n"@
    } else {
        "- [ ] Entwurf\n- [ ] Freigegeben\n"@
    }) + "\n"@
}

/// The classification section with its four checkbox lines.
pub open spec fn klass_teil_spec(d: ProtokollAnsicht) -> Seq<char> {
    "## Klassifizierung\n\n"@ + klass_zeilen_spec(Sicherheit::alle_spec(), d.sicherheit) + "\n"@
}

/// The entries table with heading and separator rule, omitted entirely
/// when every entry is empty.
pub open spec fn eintraege_teil_spec(d: ProtokollAnsicht) -> Seq<char> {
    if hat_eintrag(d.eintraege) {
        "---\n\n"@ + "## Einträge\n\n"@ + "| Punkt | Art | Notiz | Kümmerer | Bis |\n"@
            + "|-------|-----|-------|----------|-----|\n"@ + eintrag_zeilen_spec(d.eintraege)
    } else {
        Seq::empty()
    }
}

/// The closing block: rule, optional creation line, modification line and
/// attribution.
pub open spec fn schluss_teil_spec(d: ProtokollAnsicht, geaendert_am: Seq<char>) -> Seq<char> {
    "\n---\n\n"@ + (if d.erstellt_am.len() > 0 {
        "**Erstellt:** "@ + d.erstellt_am + " von "@ + d.erstellt_von + "\n\n"@
    } else {
        Seq::<char>::empty()
    }) + "**Geändert:** "@ + geaendert_am + " von "@ + d.protokollant.name + "\n\n"@
        + attribution_spec()
}

/// The complete encoded document: every section in its fixed order.
pub open spec fn kodieren_spec(d: ProtokollAnsicht, geaendert_am: Seq<char>) -> Seq<char> {
    projekt_teil_spec(d) + "# "@ + d.titel + "\n\n"@ + meta_teil_spec(d) + "---\n\n"@
        + protokollant_teil_spec(d) + personen_abschnitt_spec("Teilnehmer"@, d.teilnehmer)
        + personen_abschnitt_spec("Zur Kenntnis"@, d.zur_kenntnis) + ueber_teil_spec(d)
        + status_teil_spec(d) + klass_teil_spec(d) + eintraege_teil_spec(d) + schluss_teil_spec(
        d,
        geaendert_am,
    )
}

/// Appends the characters of `z` to `r`.
fn haenge_zeichen(r: &mut String, z: &Vec<char>)
    ensures
        final(r)@ == old(r)@ + z@,
{
    let t = text_von(z);
    r.append(t.as_str());
}

/// Writes a person as `Name [Code]`, the code omitted when empty.
pub(crate) fn person_zeile_text(p: &Person) -> (r: String)
    ensures
        r@ == person_zeile_spec(p@),
{
    let mut r = p.name.clone();
    if !p.kuerzel.as_str().is_empty() {
        r.append(" [");
        r.append(p.kuerzel.as_str());
        r.append("]");
    }
    r
}

/// Does any person of the list carry a name?
pub(crate) fn hat_person_exec(liste: &Vec<Person>) -> (r: bool)
    ensures
        r == hat_person(liste.deep_view()),
{
    let mut i: usize = 0;
    while i < liste.len()
        invariant
            i <= liste@.len(),
            forall|j: int| 0 <= j < i ==> liste.deep_view()[j].name.len() == 0,
        decreases liste@.len() - i,
    {
        if !liste[i].name.as_str().is_empty() {
            assert(liste.deep_view()[i as int].name.len() > 0);
            return true;
        }
        assert(liste.deep_view()[i as int] == liste@[i as int]@);
        i = i + 1;
    }
    false
}

/// Appends one people section to the output.
fn haenge_personen_abschnitt(r: &mut String, ueberschrift: &str, liste: &Vec<Person>)
    ensures
        final(r)@ == old(r)@ + personen_abschnitt_spec(ueberschrift@, liste.deep_view()),
{
    if !hat_person_exec(liste) {
        assert(old(r)@ + personen_abschnitt_spec(ueberschrift@, liste.deep_view()) =~= old(r)@);
        return ;
    }
    let ghost anfang = r@;
    r.append("## ");
    r.append(ueberschrift);
    r.append("\n\n");
    let ghost kopf = anfang + "## "@ + ueberschrift@ + "\n\n"@;
    let mut i: usize = 0;
    proof {
        assert(personen_zeilen_spec(liste.deep_view().subrange(0, 0)) == Seq::<char>::empty()) by {
            assert(liste.deep_view().subrange(0, 0) =~= Seq::<PersonAnsicht>::empty());
        }
        assert(r@ =~= kopf + personen_zeilen_spec(liste.deep_view().subrange(0, 0)));
    }
    while i < liste.len()
        invariant
            i <= liste@.len(),
            r@ == kopf + personen_zeilen_spec(liste.deep_view().subrange(0, i as int)),
        decreases liste@.len() - i,
    {
        let ghost bisher = liste.deep_view().subrange(0, i as int);
        let p = &liste[i];
        proof {
            assert(liste.deep_view()[i as int] == liste@[i as int]@);
        }
        if !p.name.as_str().is_empty() {
            r.append("- ");
            let zeile = person_zeile_text(p);
            r.append(zeile.as_str());
            r.append("\n");
        }
        proof {
            lemma_personen_zeilen_anhaengen(bisher, liste.deep_view()[i as int]);
            assert(liste.deep_view().subrange(0, i + 1) =~= bisher.push(
                liste.deep_view()[i as int],
            ));
            if liste.deep_view()[i as int].name.len() > 0 {
                assert(kopf + (personen_zeilen_spec(bisher) + ("- "@ + person_zeile_spec(
                    liste.deep_view()[i as int],
                ) + "\n"@)) =~= ((kopf + personen_zeilen_spec(bisher) + "- "@ + person_zeile_spec(
                    liste.deep_view()[i as int],
                )) + "\n"@));
            } else {
                assert(personen_zeilen_spec(bisher) + Seq::<char>::empty() =~= personen_zeilen_spec(
                    bisher,
                ));
            }
        }
        i = i + 1;
    }
    r.append("\n");
    proof {
        assert(liste.deep_view().subrange(0, liste.deep_view().len() as int) =~= liste.deep_view());
        assert(old(r)@ + personen_abschnitt_spec(ueberschrift@, liste.deep_view()) =~= (anfang
            + "## "@) + ueberschrift@ + "\n\n"@ + personen_zeilen_spec(liste.deep_view()) + "\n"@);
    }
}

/// Is any entry of the list non-empty?
pub(crate) fn hat_eintrag_exec(es: &Vec<Eintrag>) -> (r: bool)
    ensures
        r == hat_eintrag(es.deep_view()),
{
    let mut i: usize = 0;
    while i < es.len()
        invariant
            i <= es@.len(),
            forall|j: int| 0 <= j < i ==> (#[trigger] es.deep_view()[j]).ist_leer(),
        decreases es@.len() - i,
    {
        let e = &es[i];
        proof {
            assert(es.deep_view()[i as int] == es@[i as int]@);
        }
        if !e.punkt.as_str().is_empty() || !matches!(e.art, Art::Leer) || !e.notiz.as_str().is_empty() {
            assert(!es.deep_view()[i as int].ist_leer());
            return true;
        }
        i = i + 1;
    }
    false
}

/// Writes one data row of the entries table, cells escaped.
fn eintrag_zeile_text(e: &Eintrag) -> (r: String)
    ensures
        r@ == eintrag_zeile_spec(e@),
{
    proof {
        reveal_strlit("|");
        reveal_strlit("\n");
        reveal_strlit(" <br> ");
    }
    let rohr = zeichen_von("|");
    let rohr_ersatz = zeichen_von("\\|");
    let umbruch = zeichen_von("\n");
    let br = zeichen_von(" <br> ");
    let mut r = String::new();
    r.append("| ");
    let punkt = ersetze_alle(&zeichen_von(e.punkt.as_str()), &rohr, &rohr_ersatz);
    haenge_zeichen(&mut r, &punkt);
    r.append(" | ");
    r.append(e.art.selected_label());
    r.append(" | ");
    let notiz = ersetze_alle(
        &ersetze_alle(&zeichen_von(e.notiz.as_str()), &umbruch, &br),
        &rohr,
        &rohr_ersatz,
    );
    haenge_zeichen(&mut r, &notiz);
    r.append(" | ");
    let kuemmerer = ersetze_alle(&zeichen_von(e.kuemmerer.as_str()), &rohr, &rohr_ersatz);
    haenge_zeichen(&mut r, &kuemmerer);
    r.append(" | ");
    let bis = ersetze_alle(&zeichen_von(e.bis.as_str()), &rohr, &rohr_ersatz);
    haenge_zeichen(&mut r, &bis);
    r.append(" |\n");
    proof {
        assert(Seq::<char>::empty() + "| "@ =~= "| "@);
        assert(r@ =~= eintrag_zeile_spec(e@));
    }
    r
}

/// Appends the entries table to the output.
fn haenge_eintraege(r: &mut String, es: &Vec<Eintrag>)
    ensures
        final(r)@ == old(r)@ + eintraege_teil_spec_liste(es.deep_view()),
{
    if !hat_eintrag_exec(es) {
        assert(old(r)@ + eintraege_teil_spec_liste(es.deep_view()) =~= old(r)@);
        return ;
    }
    let ghost anfang = r@;
    r.append("---\n\n");
    r.append("## Einträge\n\n");
    r.append("| Punkt | Art | Notiz | Kümmerer | Bis |\n");
    r.append("|-------|-----|-------|----------|-----|\n");
    let ghost kopf = r@;
    let mut i: usize = 0;
    proof {
        assert(eintrag_zeilen_spec(es.deep_view().subrange(0, 0)) == Seq::<char>::empty()) by {
            assert(es.deep_view().subrange(0, 0) =~= Seq::<EintragAnsicht>::empty());
        }
        assert(r@ =~= kopf + eintrag_zeilen_spec(es.deep_view().subrange(0, 0)));
    }
    while i < es.len()
        invariant
            i <= es@.len(),
            r@ == kopf + eintrag_zeilen_spec(es.deep_view().subrange(0, i as int)),
        decreases es@.len() - i,
    {
        let ghost bisher = es.deep_view().subrange(0, i as int);
        let e = &es[i];
        proof {
            assert(es.deep_view()[i as int] == es@[i as int]@);
        }
        if !e.punkt.as_str().is_empty() || !matches!(e.art, Art::Leer) || !e.notiz.as_str().is_empty() {
            assert(!es.deep_view()[i as int].ist_leer());
            let zeile = eintrag_zeile_text(e);
            r.append(zeile.as_str());
        } else {
            assert(es.deep_view()[i as int].ist_leer());
        }
        proof {
            lemma_eintrag_zeilen_anhaengen(bisher, es.deep_view()[i as int]);
            assert(es.deep_view().subrange(0, i + 1) =~= bisher.push(es.deep_view()[i as int]));
            if !es.deep_view()[i as int].ist_leer() {
                assert(kopf + (eintrag_zeilen_spec(bisher) + eintrag_zeile_spec(
                    es.deep_view()[i as int],
                )) =~= (kopf + eintrag_zeilen_spec(bisher)) + eintrag_zeile_spec(
                    es.deep_view()[i as int],
                ));
            } else {
                assert(eintrag_zeilen_spec(bisher) + Seq::<char>::empty() =~= eintrag_zeilen_spec(
                    bisher,
                ));
            }
        }
        i = i + 1;
    }
    proof {
        assert(es.deep_view().subrange(0, es.deep_view().len() as int) =~= es.deep_view());
        assert(final(r)@ =~= old(r)@ + eintraege_teil_spec_liste(es.deep_view()));
    }
}

/// The entries table for a given list of entries.
pub open spec fn eintraege_teil_spec_liste(es: Seq<EintragAnsicht>) -> Seq<char> {
    if hat_eintrag(es) {
        "---\n\n"@ + "## Einträge\n\n"@ + "| Punkt | Art | Notiz | Kümmerer | Bis |\n"@
            + "|-------|-----|-------|----------|-----|\n"@ + eintrag_zeilen_spec(es)
    } else {
        Seq::empty()
    }
}

/// How a person line is split: at the last `[`...`]` pair, when one
/// exists, the part before it trimmed as the name and the part inside
/// trimmed as the code; otherwise the whole trimmed line is the name.
pub open spec fn name_kuerzel_spec(s: Seq<char>) -> (Seq<char>, Seq<char>) {
    let t = trim_spec(s);
    let anfang = letzte_pos(t, '[');
    let ende = letzte_pos(t, ']');
    if anfang >= 0 && ende > anfang {
        (trim_spec(t.subrange(0, anfang)), trim_spec(t.subrange(anfang + 1, ende)))
    } else {
        (t, Seq::<char>::empty())
    }
}

/// Splits a person line of the form `Name [Code]` into name and code.
/// Without a bracket pair the code comes back empty.
pub fn name_kuerzel_parsen(s: &str) -> (r: (String, String))
    ensures
        (r.0@, r.1@) == name_kuerzel_spec(s@),
{
    let z = zeichen_von(s);
    name_kuerzel_zeichen(&z)
}

/// Splits a person line held as characters into name and code.
fn name_kuerzel_zeichen(z: &Vec<char>) -> (r: (String, String))
    ensures
        (r.0@, r.1@) == name_kuerzel_spec(z@),
{
    let t = getrimmt(z);
    proof {
        lemma_letzte_pos(t@, '[');
        lemma_letzte_pos(t@, ']');
    }
    let anfang = letzte_pos_exec(&t, '[');
    let ende = letzte_pos_exec(&t, ']');
    if let (Some(a), Some(e)) = (anfang, ende) {
        if e > a {
            let name = getrimmt(&teilbereich(&t, 0, a));
            let kuerzel = getrimmt(&teilbereich(&t, a + 1, e));
            return (text_von(&name), text_von(&kuerzel));
        }
    }
    (text_von(&t), String::new())
}

/// How a category cell is read back: the trimmed text matched against the
/// fixed labels, anything else falling back to the empty category.
pub open spec fn art_parsen_spec(s: Seq<char>) -> Art {
    let t = trim_spec(s);
    if t == "ABGEBROCHEN"@ {
        Art::Abgebrochen
    } else if t == "AGENDA"@ {
        Art::Agenda
    } else if t == "ENTSCHEIDUNG"@ {
        Art::Entscheidung
    } else if t == "FERTIG"@ {
        Art::Fertig
    } else if t == "IDEE"@ {
        Art::Idee
    } else if t == "INFO"@ {
        Art::Info
    } else if t == "TODO"@ {
        Art::Todo
    } else {
        Art::Leer
    }
}

/// Reads a category cell back into its variant; unknown or empty text
/// yields the empty category.
pub fn art_parsen(s: &str) -> (r: Art)
    ensures
        r == art_parsen_spec(s@),
{
    let z = zeichen_von(s);
    let t = getrimmt(&z);
    if zeichen_gleich(&t, &zeichen_von("ABGEBROCHEN")) {
        Art::Abgebrochen
    } else if zeichen_gleich(&t, &zeichen_von("AGENDA")) {
        Art::Agenda
    } else if zeichen_gleich(&t, &zeichen_von("ENTSCHEIDUNG")) {
        Art::Entscheidung
    } else if zeichen_gleich(&t, &zeichen_von("FERTIG")) {
        Art::Fertig
    } else if zeichen_gleich(&t, &zeichen_von("IDEE")) {
        Art::Idee
    } else if zeichen_gleich(&t, &zeichen_von("INFO")) {
        Art::Info
    } else if zeichen_gleich(&t, &zeichen_von("TODO")) {
        Art::Todo
    } else {
        Art::Leer
    }
}

/// Splitting of a table row's inner text into trimmed cells. A `\|` pair
/// stands for a literal pipe inside a cell; an unescaped pipe ends the
/// cell.
pub open spec fn zellen_ab(s: Seq<char>, akt: Seq<char>) -> Seq<Seq<char>>
    decreases s.len(),
{
    if s.len() == 0 {
        seq![trim_spec(akt)]
    } else if s[0] == '\\' && s.len() >= 2 && s[1] == '|' {
        zellen_ab(s.skip(2), akt.push('|'))
    } else if s[0] == '|' {
        seq![trim_spec(akt)] + zellen_ab(s.drop_first(), Seq::empty())
    } else {
        zellen_ab(s.drop_first(), akt.push(s[0]))
    }
}

/// The cells of a whole table row: the row is trimmed, stripped of its
/// outer pipes, and split on unescaped pipes.
pub open spec fn tabellenzeile_spec(s: Seq<char>) -> Seq<Seq<char>> {
    zellen_ab(
        streife_rechts_spec(streife_links_spec(trim_spec(s), '|'), '|'),
        Seq::<char>::empty(),
    )
}

/// Splits a Markdown table row (`| A | B | C |`) into its cells,
/// honouring escaped pipes as literal characters.
pub fn tabellenzeile_aufteilen(row: &str) -> (r: Vec<String>)
    ensures
        r.deep_view() == tabellenzeile_spec(row@),
{
    let z = zeichen_von(row);
    zellen_aufteilen(&z)
}

/// Splits a table row held as characters into its cells.
fn zellen_aufteilen(z: &Vec<char>) -> (r: Vec<String>)
    ensures
        r.deep_view() == tabellenzeile_spec(z@),
{
    let inner = gestreift(&getrimmt(z), '|');
    let mut r: Vec<String> = Vec::new();
    let mut akt: Vec<char> = Vec::new();
    let mut i: usize = 0;
    proof {
        assert(inner@.subrange(0, inner@.len() as int) =~= inner@);
        assert(r.deep_view() =~= Seq::<Seq<char>>::empty());
        assert(Seq::<Seq<char>>::empty() + tabellenzeile_spec(z@) =~= tabellenzeile_spec(z@));
    }
    while i < inner.len()
        invariant
            i <= inner@.len(),
            tabellenzeile_spec(z@) == r.deep_view() + zellen_ab(
                inner@.subrange(i as int, inner@.len() as int),
                akt@,
            ),
        decreases inner@.len() - i,
    {
        let ghost rest = inner@.subrange(i as int, inner@.len() as int);
        let c = inner[i];
        if c == '\\' && i + 1 < inner.len() && inner[i + 1] == '|' {
            proof {
                assert(rest.skip(2) =~= inner@.subrange(i + 2, inner@.len() as int));
            }
            akt.push('|');
            i = i + 2;
        } else if c == '|' {
            proof {
                assert(rest.drop_first() =~= inner@.subrange(i + 1, inner@.len() as int));
            }
            let zelle = getrimmt(&akt);
            let ghost r_alt = r.deep_view();
            r.push(text_von(&zelle));
            akt = Vec::new();
            proof {
                assert(r.deep_view() =~~= r_alt.push(zelle@));
                assert(r_alt + (seq![zelle@] + zellen_ab(
                    inner@.subrange(i + 1, inner@.len() as int),
                    Seq::<char>::empty(),
                )) =~= r.deep_view() + zellen_ab(
                    inner@.subrange(i + 1, inner@.len() as int),
                    Seq::<char>::empty(),
                ));
            }
            i = i + 1;
        } else {
            proof {
                assert(rest.drop_first() =~= inner@.subrange(i + 1, inner@.len() as int));
                assert(rest[0] == c);
            }
            akt.push(c);
            i = i + 1;
        }
    }
    proof {
        assert(inner@.subrange(inner@.len() as int, inner@.len() as int) =~= Seq::<char>::empty());
    }
    let zelle = getrimmt(&akt);
    let ghost r_alt = r.deep_view();
    r.push(text_von(&zelle));
    proof {
        assert(r.deep_view() =~~= r_alt.push(zelle@));
        assert(r_alt + seq![zelle@] =~= r.deep_view());
    }
    r
}

/// Appends the header: project block, title, metadata line, rule and
/// protocol-author section.
fn haenge_kopf(r: &mut String, d: &Protokoll)
    ensures
        final(r)@ == old(r)@ + projekt_teil_spec(d@) + "# "@ + d@.titel + "\n\n"@
            + meta_teil_spec(d@) + "---\n\n"@ + protokollant_teil_spec(d@),
{
    let ghost anfang = r@;
    if !d.projekt.as_str().is_empty() {
        r.append("**Projekt:** ");
        r.append(d.projekt.as_str());
        r.append("\n\n");
    }
    proof {
        assert(r@ =~= anfang + projekt_teil_spec(d@));
    }
    r.append("# ");
    r.append(d.titel.as_str());
    r.append("\n\n");
    let ghost nach_titel = anfang + projekt_teil_spec(d@) + "# "@ + d@.titel + "\n\n"@;
    assert(r@ =~= nach_titel);
    if !d.datum_text.as_str().is_empty() && !d.ort.as_str().is_empty() {
        r.append("**Datum:** ");
        r.append(d.datum_text.as_str());
        r.append(" | ");
        r.append("**Ort:** ");
        r.append(d.ort.as_str());
        r.append("\n\n");
    } else if !d.datum_text.as_str().is_empty() {
        r.append("**Datum:** ");
        r.append(d.datum_text.as_str());
        r.append("\n\n");
    } else if !d.ort.as_str().is_empty() {
        r.append("**Ort:** ");
        r.append(d.ort.as_str());
        r.append("\n\n");
    }
    let ghost nach_meta = nach_titel + meta_teil_spec(d@);
    assert(r@ =~= nach_meta);
    r.append("---\n\n");
    if !d.protokollant.name.as_str().is_empty() {
        r.append("## Protokollführer\n\n");
        let zeile = person_zeile_text(&d.protokollant);
        r.append(zeile.as_str());
        r.append("\n\n");
    }
    assert(r@ =~= (nach_meta + "---\n\n"@) + protokollant_teil_spec(d@));
}

/// Appends the meeting-description section.
fn haenge_ueber(r: &mut String, d: &Protokoll)
    ensures
        final(r)@ == old(r)@ + ueber_teil_spec(d@),
{
    r.append("## Über dieses Meeting\n\n");
    if !d.ueber_meeting.as_str().is_empty() {
        r.append(d.ueber_meeting.as_str());
        r.append("\n\n");
    }
    assert(final(r)@ =~= old(r)@ + ueber_teil_spec(d@));
}

/// Appends the status section with its two checkbox lines.
fn haenge_status(r: &mut String, d: &Protokoll)
    ensures
        final(r)@ == old(r)@ + status_teil_spec(d@),
{
    r.append("## Status\n\n");
    if d.ist_entwurf {
        r.append("- [x] Entwurf\n");
        r.append("- [ ] Freigegeben\n");
    } else if d.ist_freigegeben {
        r.append("- [ ] Entwurf\n");
        r.append("- [x] Freigegeben\n");
    } else {
        r.append("- [ ] Entwurf\n");
        r.append("- [ ] Freigegeben\n");
    }
    r.append("\n");
    proof {
        if d@.ist_entwurf {
            assert("- [x] Entwurf\n"@ + "- [ ] Freigegeben\n"@
                =~= "- [x] Entwurf\n- [ ] Freigegeben\n"@) by {
                reveal_strlit("- [x] Entwurf\n");
                reveal_strlit("- [ ] Freigegeben\n");
                reveal_strlit("- [x] Entwurf\n- [ ] Freigegeben\n");
            }
        } else if d@.ist_freigegeben {
            assert("- [ ] Entwurf\n"@ + "- [x] Freigegeben\n"@
                =~= "- [ ] Entwurf\n- [x] Freigegeben\n"@) by {
                reveal_strlit("- [ ] Entwurf\n");
                reveal_strlit("- [x] Freigegeben\n");
                reveal_strlit("- [ ] Entwurf\n- [x] Freigegeben\n");
            }
        } else {
            assert("- [ ] Entwurf\n"@ + "- [ ] Freigegeben\n"@
                =~= "- [ ] Entwurf\n- [ ] Freigegeben\n"@) by {
                reveal_strlit("- [ ] Entwurf\n");
                reveal_strlit("- [ ] Freigegeben\n");
                reveal_strlit("- [ ] Entwurf\n- [ ] Freigegeben\n");
            }
        }
        assert(final(r)@ =~= old(r)@ + status_teil_spec(d@));
    }
}

/// Appends the classification section, one checkbox line per level.
fn haenge_klassifizierung(r: &mut String, d: &Protokoll)
    ensures
        final(r)@ == old(r)@ + klass_teil_spec(d@),
{
    r.append("## Klassifizierung\n\n");
    let ghost klass_anfang = r@;
    let stufen = Sicherheit::all();
    let mut i: usize = 0;
    proof {
        assert(klass_zeilen_spec(stufen@.subrange(0, 0), d@.sicherheit) == Seq::<char>::empty())
            by {
            assert(stufen@.subrange(0, 0) =~= Seq::<Sicherheit>::empty());
        }
        assert(r@ =~= klass_anfang + klass_zeilen_spec(stufen@.subrange(0, 0), d@.sicherheit));
    }
    while i < stufen.len()
        invariant
            i <= stufen@.len(),
            stufen@ == Sicherheit::alle_spec(),
            r@ == klass_anfang + klass_zeilen_spec(stufen@.subrange(0, i as int), d.sicherheit),
            d.sicherheit == d@.sicherheit,
        decreases stufen@.len() - i,
    {
        let ghost bisher = stufen@.subrange(0, i as int);
        let s = stufen[i];
        if s == d.sicherheit {
            r.append("- [x] ");
        } else {
            r.append("- [ ] ");
        }
        r.append(s.label());
        r.append("\n");
        proof {
            lemma_klass_zeilen_anhaengen(bisher, stufen@[i as int], d@.sicherheit);
            assert(stufen@.subrange(0, i + 1) =~= bisher.push(stufen@[i as int]));
            let kasten: Seq<char> = if stufen@[i as int] == d@.sicherheit {
                "- [x] "@
            } else {
                "- [ ] "@
            };
            assert(klass_anfang + (klass_zeilen_spec(bisher, d@.sicherheit) + kasten
                + stufen@[i as int].label_spec() + "\n"@) =~= ((klass_anfang + klass_zeilen_spec(
                bisher,
                d@.sicherheit,
            ) + kasten + stufen@[i as int].label_spec()) + "\n"@));
        }
        i = i + 1;
    }
    r.append("\n");
    proof {
        assert(stufen@.subrange(0, stufen@.len() as int) =~= stufen@);
        assert(final(r)@ =~= old(r)@ + klass_teil_spec(d@));
    }
}

/// Appends the closing block: rule, creation line, modification line and
/// attribution.
fn haenge_schluss(r: &mut String, d: &Protokoll, geaendert_am: &str)
    ensures
        final(r)@ == old(r)@ + schluss_teil_spec(d@, geaendert_am@),
{
    r.append("\n---\n\n");
    if !d.erstellt_am.as_str().is_empty() {
        r.append("**Erstellt:** ");
        r.append(d.erstellt_am.as_str());
        r.append(" von ");
        r.append(d.erstellt_von.as_str());
        r.append("\n\n");
    }
    r.append("**Geändert:** ");
    r.append(geaendert_am);
    r.append(" von ");
    r.append(d.protokollant.name.as_str());
    r.append("\n\n");
    r.append(
        "*Erstellt mit MZProtokoll von Marcel Zimmer — [www.marcelzimmer.de](https://www.marcelzimmer.de) | [X @marcelzimmer](https://x.com/marcelzimmer) | [GitHub @marcelzimmer](https://github.com/marcelzimmer)*\n",
    );
    assert(final(r)@ =~= old(r)@ + schluss_teil_spec(d@, geaendert_am@));
}

impl Protokoll {
    /// Serialises the document in the fixed Markdown grammar. The
    /// modification timestamp is supplied by the caller and written into
    /// the closing block; everything else is a function of the document.
    pub fn markdown_erstellen(&self, geaendert_am: &str) -> (r: String)
        ensures
            r@ == kodieren_spec(self@, geaendert_am@),
    {
        let mut r = String::new();
        haenge_kopf(&mut r, self);
        let ghost nach_kopf = r@;
        haenge_personen_abschnitt(&mut r, "Teilnehmer", &self.teilnehmer);
        haenge_personen_abschnitt(&mut r, "Zur Kenntnis", &self.zur_kenntnis);
        haenge_ueber(&mut r, self);
        haenge_status(&mut r, self);
        haenge_klassifizierung(&mut r, self);
        haenge_eintraege(&mut r, &self.eintraege);
        haenge_schluss(&mut r, self, geaendert_am);
        proof {
            assert(eintraege_teil_spec_liste(self@.eintraege) == eintraege_teil_spec(self@));
            assert(r@ =~= kodieren_spec(self@, geaendert_am@));
        }
        r
    }
}


// ---------------------------------------------------------------------
// Decoding
// ---------------------------------------------------------------------

/// The named sections of the grammar that the decoder walks through.
#[derive(Clone, Copy, Debug, PartialEq, Eq, Structural)]
pub enum Abschnitt {
    Kopf,
    Protokollfuehrer,
    Teilnehmer,
    ZurKenntnis,
    UeberMeeting,
    Status,
    Klassifizierung,
    Eintraege,
}

/// The decoder's full state between lines.
#[verifier::ext_equal]
pub ghost struct LeseZustand {
    pub dok: ProtokollAnsicht,
    pub abschnitt: Abschnitt,
    pub tabellenzeilen: int,
    pub ueber_zeilen: Seq<Seq<char>>,
}

/// The state the decoder starts from: every field reset, the lists empty
/// until the closing normalisation refills them.
pub open spec fn lese_anfang() -> LeseZustand {
    LeseZustand {
        dok: ProtokollAnsicht {
            projekt: Seq::empty(),
            titel: Seq::empty(),
            datum_text: Seq::empty(),
            ort: Seq::empty(),
            protokollant: PersonAnsicht::leer(),
            teilnehmer: Seq::empty(),
            zur_kenntnis: Seq::empty(),
            ueber_meeting: Seq::empty(),
            ist_entwurf: true,
            ist_freigegeben: false,
            sicherheit: Sicherheit::Intern,
            eintraege: Seq::empty(),
            erstellt_am: Seq::empty(),
            erstellt_von: Seq::empty(),
        },
        abschnitt: Abschnitt::Kopf,
        tabellenzeilen: 0,
        ueber_zeilen: Seq::empty(),
    }
}

/// On leaving the description section, its collected raw lines are
/// joined and trimmed into the description field.
pub open spec fn ueber_fluss(z: LeseZustand) -> LeseZustand {
    if z.abschnitt == Abschnitt::UeberMeeting {
        LeseZustand {
            dok: ProtokollAnsicht {
                ueber_meeting: trim_spec(verbinden_spec(z.ueber_zeilen, "\n"@)),
                ..z.dok
            },
            ueber_zeilen: Seq::empty(),
            ..z
        }
    } else {
        z
    }
}

/// A creation-metadata line, recognised in any section: the text after
/// the marker is split at the first ` von ` into timestamp and name.
pub open spec fn erstellt_schritt(d: ProtokollAnsicht, t: Seq<char>) -> ProtokollAnsicht {
    let rest = trim_spec(streife_praefixe(t, "**Erstellt:**"@));
    let k = erstes_vorkommen(rest, " von "@);
    if k < rest.len() {
        ProtokollAnsicht {
            erstellt_am: trim_spec(rest.subrange(0, k)),
            erstellt_von: trim_spec(rest.subrange(k + " von "@.len(), rest.len() as int)),
            ..d
        }
    } else {
        d
    }
}

/// One part of the metadata line applied to the document: a date or a
/// location prefix assigns its field, anything else is ignored.
pub open spec fn meta_teil_anwenden(d: ProtokollAnsicht, p: Seq<char>) -> ProtokollAnsicht {
    let p2 = trim_spec(p);
    if ist_praefix("**Datum:**"@, p2) {
        ProtokollAnsicht { datum_text: trim_spec(streife_praefixe(p2, "**Datum:**"@)), ..d }
    } else if ist_praefix("**Ort:**"@, p2) {
        ProtokollAnsicht { ort: trim_spec(streife_praefixe(p2, "**Ort:**"@)), ..d }
    } else {
        d
    }
}

/// All parts of the metadata line applied in order.
pub open spec fn meta_falten(d: ProtokollAnsicht, teile: Seq<Seq<char>>) -> ProtokollAnsicht
    decreases teile.len(),
{
    if teile.len() == 0 {
        d
    } else {
        meta_falten(meta_teil_anwenden(d, teile[0]), teile.drop_first())
    }
}

/// A line in the header section: project, title, or the metadata line.
pub open spec fn kopf_dok(d: ProtokollAnsicht, t: Seq<char>) -> ProtokollAnsicht {
    if ist_praefix("**Projekt:**"@, t) {
        ProtokollAnsicht { projekt: trim_spec(streife_praefixe(t, "**Projekt:**"@)), ..d }
    } else if ist_praefix("# "@, t) {
        ProtokollAnsicht { titel: t.skip("# "@.len() as int), ..d }
    } else if enthaelt(t, "**Datum:**"@) || enthaelt(t, "**Ort:**"@) {
        meta_falten(d, teile_spec(t, " | "@))
    } else {
        d
    }
}

/// A person read from one line of a people list.
pub open spec fn person_aus(s: Seq<char>) -> PersonAnsicht {
    let nk = name_kuerzel_spec(s);
    PersonAnsicht { name: nk.0, kuerzel: nk.1, kuerzel_manuell: nk.1.len() > 0 }
}

/// A line in the protocol-author section: any non-empty line that is not
/// a rule names the author; a parsed code also marks it manually set.
pub open spec fn protokollfuehrer_dok(d: ProtokollAnsicht, t: Seq<char>) -> ProtokollAnsicht {
    if t.len() > 0 && t != "---"@ {
        let nk = name_kuerzel_spec(t);
        let p = if nk.1.len() > 0 {
            PersonAnsicht { name: nk.0, kuerzel: nk.1, kuerzel_manuell: true }
        } else {
            PersonAnsicht { name: nk.0, ..d.protokollant }
        };
        ProtokollAnsicht { protokollant: p, ..d }
    } else {
        d
    }
}

/// A line in the participants section: bulleted lines add a person.
pub open spec fn teilnehmer_dok(d: ProtokollAnsicht, t: Seq<char>) -> ProtokollAnsicht {
    if ist_praefix("- "@, t) {
        ProtokollAnsicht {
            teilnehmer: d.teilnehmer.push(person_aus(t.skip("- "@.len() as int))),
            ..d
        }
    } else {
        d
    }
}

/// A line in the for-information section: bulleted lines add a person.
pub open spec fn kenntnis_dok(d: ProtokollAnsicht, t: Seq<char>) -> ProtokollAnsicht {
    if ist_praefix("- "@, t) {
        ProtokollAnsicht {
            zur_kenntnis: d.zur_kenntnis.push(person_aus(t.skip("- "@.len() as int))),
            ..d
        }
    } else {
        d
    }
}

/// A line in the status section: a checked box sets its flag and clears
/// the other, keeping the two mutually exclusive.
pub open spec fn status_dok(d: ProtokollAnsicht, t: Seq<char>) -> ProtokollAnsicht {
    if ist_praefix("- [x] Entwurf"@, t) {
        ProtokollAnsicht { ist_entwurf: true, ist_freigegeben: false, ..d }
    } else if ist_praefix("- [x] Freigegeben"@, t) {
        ProtokollAnsicht { ist_entwurf: false, ist_freigegeben: true, ..d }
    } else {
        d
    }
}

/// A line in the classification section: a checked box selects its level.
pub open spec fn klass_dok(d: ProtokollAnsicht, t: Seq<char>) -> ProtokollAnsicht {
    if ist_praefix("- [x] Öffentlich"@, t) {
        ProtokollAnsicht { sicherheit: Sicherheit::Oeffentlich, ..d }
    } else if ist_praefix("- [x] Intern"@, t) {
        ProtokollAnsicht { sicherheit: Sicherheit::Intern, ..d }
    } else if ist_praefix("- [x] Vertraulich"@, t) {
        ProtokollAnsicht { sicherheit: Sicherheit::Vertraulich, ..d }
    } else if ist_praefix("- [x] Streng vertraulich"@, t) {
        ProtokollAnsicht { sicherheit: Sicherheit::StrengVertraulich, ..d }
    } else {
        d
    }
}

/// The entry read from the cells of one data row. An action item's label
/// cell is discarded, mirroring the model invariant.
pub open spec fn eintrag_aus(zellen: Seq<Seq<char>>) -> EintragAnsicht
    recommends
        zellen.len() >= 5,
{
    let art = art_parsen_spec(zellen[1]);
    EintragAnsicht {
        punkt: if art == Art::Todo {
            Seq::empty()
        } else {
            zellen[0]
        },
        art: art,
        notiz: ersetze_spec(zellen[2], " <br> "@, "\n"@),
        kuemmerer: zellen[3],
        bis: zellen[4],
    }
}

/// A line in the entries section: table rows are counted, the first two
/// are heading and separator, later rows with at least five cells become
/// entries, and short rows are dropped.
pub open spec fn eintraege_schritt(d: ProtokollAnsicht, n: int, t: Seq<char>) -> (
    ProtokollAnsicht,
    int,
) {
    if ist_praefix("|"@, t) {
        let n2 = n + 1;
        if n2 >= 3 {
            let zellen = tabellenzeile_spec(t);
            if zellen.len() >= 5 {
                (ProtokollAnsicht { eintraege: d.eintraege.push(eintrag_aus(zellen)), ..d }, n2)
            } else {
                (d, n2)
            }
        } else {
            (d, n2)
        }
    } else {
        (d, n)
    }
}

/// A line handled inside whatever section is active.
pub open spec fn abschnitt_schritt(z: LeseZustand, zeile: Seq<char>, t: Seq<char>) -> LeseZustand {
    match z.abschnitt {
        Abschnitt::Kopf => LeseZustand { dok: kopf_dok(z.dok, t), ..z },
        Abschnitt::Protokollfuehrer => LeseZustand { dok: protokollfuehrer_dok(z.dok, t), ..z },
        Abschnitt::Teilnehmer => LeseZustand { dok: teilnehmer_dok(z.dok, t), ..z },
        Abschnitt::ZurKenntnis => LeseZustand { dok: kenntnis_dok(z.dok, t), ..z },
        Abschnitt::UeberMeeting => LeseZustand {
            ueber_zeilen: if t != "---"@ {
                z.ueber_zeilen.push(zeile)
            } else {
                z.ueber_zeilen
            },
            ..z
        },
        Abschnitt::Status => LeseZustand { dok: status_dok(z.dok, t), ..z },
        Abschnitt::Klassifizierung => LeseZustand { dok: klass_dok(z.dok, t), ..z },
        Abschnitt::Eintraege => {
            let neu = eintraege_schritt(z.dok, z.tabellenzeilen, t);
            LeseZustand { dok: neu.0, tabellenzeilen: neu.1, ..z }
        },
    }
}

/// One line of input applied to the decoder state: creation metadata is
/// recognised anywhere; a `## ` line flushes the description buffer and
/// switches the section when its title is known; anything else is
/// handled inside the active section.
pub open spec fn lese_schritt(z: LeseZustand, zeile: Seq<char>) -> LeseZustand {
    let t = trim_spec(zeile);
    if ist_praefix("**Erstellt:**"@, t) {
        LeseZustand { dok: erstellt_schritt(z.dok, t), ..z }
    } else if ist_praefix("## "@, t) {
        let z1 = ueber_fluss(z);
        if ist_praefix("## Protokollführer"@, t) {
            LeseZustand { abschnitt: Abschnitt::Protokollfuehrer, ..z1 }
        } else if ist_praefix("## Teilnehmer"@, t) {
            LeseZustand { abschnitt: Abschnitt::Teilnehmer, ..z1 }
        } else if ist_praefix("## Zur Kenntnis"@, t) {
            LeseZustand { abschnitt: Abschnitt::ZurKenntnis, ..z1 }
        } else if ist_praefix("## Über dieses Meeting"@, t) {
            LeseZustand { abschnitt: Abschnitt::UeberMeeting, ..z1 }
        } else if ist_praefix("## Status"@, t) {
            LeseZustand { abschnitt: Abschnitt::Status, ..z1 }
        } else if ist_praefix("## Klassifizierung"@, t) {
            LeseZustand { abschnitt: Abschnitt::Klassifizierung, ..z1 }
        } else if ist_praefix("## Einträge"@, t) {
            LeseZustand { abschnitt: Abschnitt::Eintraege, tabellenzeilen: 0, ..z1 }
        } else {
            abschnitt_schritt(z1, zeile, t)
        }
    } else {
        abschnitt_schritt(z, zeile, t)
    }
}

/// The decoder state after all lines, applied in order.
pub open spec fn lese_zeilen(zs: Seq<Seq<char>>) -> LeseZustand
    decreases zs.len(),
{
    if zs.len() == 0 {
        lese_anfang()
    } else {
        lese_schritt(lese_zeilen(zs.drop_last()), zs.last())
    }
}

/// Closing the decode: the description buffer is flushed and each list
/// that stayed empty receives its single placeholder.
pub open spec fn abschliessen(z: LeseZustand) -> ProtokollAnsicht {
    let d = ueber_fluss(z).dok;
    ProtokollAnsicht {
        teilnehmer: if d.teilnehmer.len() == 0 {
            seq![PersonAnsicht::leer()]
        } else {
            d.teilnehmer
        },
        zur_kenntnis: if d.zur_kenntnis.len() == 0 {
            seq![PersonAnsicht::leer()]
        } else {
            d.zur_kenntnis
        },
        eintraege: if d.eintraege.len() == 0 {
            seq![EintragAnsicht::leer()]
        } else {
            d.eintraege
        },
        ..d
    }
}

/// The document decoded from a text: the lines of the text run through
/// the section state machine, then the result is normalised.
pub open spec fn parse_spec(text: Seq<char>) -> ProtokollAnsicht {
    abschliessen(lese_zeilen(zeilen_spec(text)))
}


/// The invariant the decoder keeps while reading: the status flags stay
/// mutually exclusive and action items carry no label.
pub open spec fn zustand_ok(z: LeseZustand) -> bool {
    &&& z.dok.ist_entwurf != z.dok.ist_freigegeben
    &&& forall|k: int|
        0 <= k < z.dok.eintraege.len() && (#[trigger] z.dok.eintraege[k]).art == Art::Todo
            ==> z.dok.eintraege[k].punkt.len() == 0
}

proof fn lemma_abschnitt_ok(z: LeseZustand, zeile: Seq<char>, t: Seq<char>)
    requires
        zustand_ok(z),
    ensures
        zustand_ok(abschnitt_schritt(z, zeile, t)),
{
    let neu = abschnitt_schritt(z, zeile, t);
    if z.abschnitt == Abschnitt::Eintraege {
        let geschritten = eintraege_schritt(z.dok, z.tabellenzeilen, t);
        assert(neu.dok == geschritten.0);
        assert forall|k: int|
            0 <= k < neu.dok.eintraege.len() && (#[trigger] neu.dok.eintraege[k]).art == Art::Todo
                implies neu.dok.eintraege[k].punkt.len() == 0 by {
            if k < z.dok.eintraege.len() {
                assert(neu.dok.eintraege[k] == z.dok.eintraege[k]);
            } else {
                assert(neu.dok.eintraege[k] == eintrag_aus(tabellenzeile_spec(t)));
            }
        }
    } else {
        if z.abschnitt == Abschnitt::Kopf {
            lemma_meta_falten_erhaelt(z.dok, teile_spec(t, " | "@));
        }
        assert(neu.dok.eintraege == z.dok.eintraege);
    }
}

proof fn lemma_meta_falten_erhaelt(d: ProtokollAnsicht, teile: Seq<Seq<char>>)
    ensures
        meta_falten(d, teile).eintraege == d.eintraege,
        meta_falten(d, teile).ist_entwurf == d.ist_entwurf,
        meta_falten(d, teile).ist_freigegeben == d.ist_freigegeben,
    decreases teile.len(),
{
    if teile.len() > 0 {
        lemma_meta_falten_erhaelt(meta_teil_anwenden(d, teile[0]), teile.drop_first());
    }
}

proof fn lemma_schritt_ok(z: LeseZustand, zeile: Seq<char>)
    requires
        zustand_ok(z),
    ensures
        zustand_ok(lese_schritt(z, zeile)),
{
    let t = trim_spec(zeile);
    if ist_praefix("**Erstellt:**"@, t) {
    } else if ist_praefix("## "@, t) {
        let z1 = ueber_fluss(z);
        assert(zustand_ok(z1));
        lemma_abschnitt_ok(z1, zeile, t);
    } else {
        lemma_abschnitt_ok(z, zeile, t);
    }
}

proof fn lemma_zeilen_ok(zs: Seq<Seq<char>>)
    ensures
        zustand_ok(lese_zeilen(zs)),
    decreases zs.len(),
{
    if zs.len() > 0 {
        lemma_zeilen_ok(zs.drop_last());
        lemma_schritt_ok(lese_zeilen(zs.drop_last()), zs.last());
    }
}

/// Whatever the input, the decoded document satisfies the model
/// invariant: non-empty lists, exclusive status flags, and label-free
/// action items.
pub proof fn lemma_parse_wohlgeformt(text: Seq<char>)
    ensures
        parse_spec(text).wohlgeformt(),
{
    lemma_zeilen_ok(zeilen_spec(text));
}

/// Applies a header-section line to the document.
fn kopf_zeile(dok: &mut Protokoll, t: &Vec<char>)
    ensures
        final(dok)@ == kopf_dok(old(dok)@, t@),
{
    proof {
        reveal_strlit("**Projekt:**");
        reveal_strlit("**Datum:**");
        reveal_strlit("**Ort:**");
        reveal_strlit(" | ");
    }
    let p_projekt = zeichen_von("**Projekt:**");
    let p_titel = zeichen_von("# ");
    let p_datum = zeichen_von("**Datum:**");
    let p_ort = zeichen_von("**Ort:**");
    if hat_praefix(t, &p_projekt) {
        dok.projekt = text_von(&getrimmt(&streife_praefixe_exec(t, &p_projekt)));
        assert(final(dok)@ =~~= kopf_dok(old(dok)@, t@));
    } else if hat_praefix(t, &p_titel) {
        let rest = teilbereich(t, p_titel.len(), t.len());
        proof {
            assert(rest@ =~= t@.skip("# "@.len() as int));
        }
        dok.titel = text_von(&rest);
        assert(final(dok)@ =~~= kopf_dok(old(dok)@, t@));
    } else if enthaelt_exec(t, &p_datum) || enthaelt_exec(t, &p_ort) {
        let sep = zeichen_von(" | ");
        let stuecke = teile(t, &sep);
        let ghost alle = teile_spec(t@, " | "@);
        let mut j: usize = 0;
        proof {
            assert(alle.subrange(0, alle.len() as int) =~= alle);
        }
        while j < stuecke.len()
            invariant
                j <= stuecke@.len(),
                stuecke.deep_view() == alle,
                p_datum@ == "**Datum:**"@,
                p_ort@ == "**Ort:**"@,
                p_datum@.len() > 0,
                p_ort@.len() > 0,
                ist_praefix("**Projekt:**"@, t@) == false,
                ist_praefix("# "@, t@) == false,
                enthaelt(t@, "**Datum:**"@) || enthaelt(t@, "**Ort:**"@),
                alle == teile_spec(t@, " | "@),
                kopf_dok(old(dok)@, t@) == meta_falten(
                    dok@,
                    alle.subrange(j as int, alle.len() as int),
                ),
            decreases stuecke@.len() - j,
        {
            let ghost rest = alle.subrange(j as int, alle.len() as int);
            let ghost dok_vor = dok@;
            proof {
                assert(rest[0] == alle[j as int]);
                assert(rest.drop_first() =~= alle.subrange(j + 1, alle.len() as int));
                assert(stuecke.deep_view()[j as int] =~= stuecke@[j as int]@);
            }
            let p2 = getrimmt(&stuecke[j]);
            if hat_praefix(&p2, &p_datum) {
                dok.datum_text = text_von(&getrimmt(&streife_praefixe_exec(&p2, &p_datum)));
            } else if hat_praefix(&p2, &p_ort) {
                dok.ort = text_von(&getrimmt(&streife_praefixe_exec(&p2, &p_ort)));
            }
            proof {
                assert(p2@ == trim_spec(alle[j as int]));
                assert(dok@ =~~= meta_teil_anwenden(dok_vor, alle[j as int]));
                assert(meta_falten(dok_vor, rest) == meta_falten(
                    dok@,
                    alle.subrange(j + 1, alle.len() as int),
                ));
            }
            j = j + 1;
        }
        proof {
            assert(alle.subrange(alle.len() as int, alle.len() as int)
                =~= Seq::<Seq<char>>::empty());
        }
    }
}

/// Applies an entries-section line: counts table rows and turns data
/// rows with enough cells into entries.
fn eintraege_zeile(dok: &mut Protokoll, n: &mut usize, t: &Vec<char>)
    requires
        *old(n) < usize::MAX,
    ensures
        ({
            let neu = eintraege_schritt(old(dok)@, *old(n) as int, t@);
            final(dok)@ == neu.0 && *final(n) as int == neu.1
        }),
{
    let p_rohr = zeichen_von("|");
    if hat_praefix(t, &p_rohr) {
        *n = *n + 1;
        if *n >= 3 {
            let zellen = zellen_aufteilen(t);
            if zellen.len() >= 5 {
                proof {
                    reveal_strlit(" <br> ");
                    assert(zellen.deep_view()[0] =~= zellen@[0]@);
                    assert(zellen.deep_view()[1] =~= zellen@[1]@);
                    assert(zellen.deep_view()[2] =~= zellen@[2]@);
                    assert(zellen.deep_view()[3] =~= zellen@[3]@);
                    assert(zellen.deep_view()[4] =~= zellen@[4]@);
                }
                let br = zeichen_von(" <br> ");
                let umbruch = zeichen_von("\n");
                let art = art_parsen(zellen[1].as_str());
                let mut e = Eintrag::new();
                if !matches!(art, Art::Todo) {
                    e.punkt = zellen[0].clone();
                }
                e.art = art;
                e.notiz = text_von(&ersetze_alle(&zeichen_von(zellen[2].as_str()), &br, &umbruch));
                e.kuemmerer = zellen[3].clone();
                e.bis = zellen[4].clone();
                let ghost vorher = dok.eintraege.deep_view();
                dok.eintraege.push(e);
                proof {
                    assert(e@ =~~= eintrag_aus(tabellenzeile_spec(t@)));
                    assert(dok.eintraege.deep_view() =~~= vorher.push(
                        eintrag_aus(tabellenzeile_spec(t@)),
                    ));
                    assert(dok@ =~~= eintraege_schritt(old(dok)@, *old(n) as int, t@).0);
                }
            }
        }
    }
}

/// Applies a line inside the active section.
fn abschnitt_zeile(
    dok: &mut Protokoll,
    abschnitt: Abschnitt,
    n: &mut usize,
    ueber_zeilen: &mut Vec<Vec<char>>,
    zeile: &Vec<char>,
    t: &Vec<char>,
)
    requires
        t@ == trim_spec(zeile@),
        *old(n) < usize::MAX,
    ensures
        ({
            let alt = LeseZustand {
                dok: old(dok)@,
                abschnitt: abschnitt,
                tabellenzeilen: *old(n) as int,
                ueber_zeilen: old(ueber_zeilen).deep_view(),
            };
            let neu = abschnitt_schritt(alt, zeile@, t@);
            final(dok)@ == neu.dok && *final(n) as int == neu.tabellenzeilen
                && final(ueber_zeilen).deep_view() == neu.ueber_zeilen
        }),
{
    match abschnitt {
        Abschnitt::Kopf => {
            kopf_zeile(dok, t);
        },
        Abschnitt::Protokollfuehrer => {
            let strich = zeichen_von("---");
            if t.len() > 0 && !zeichen_gleich(t, &strich) {
                let nk = name_kuerzel_zeichen(t);
                dok.protokollant.name = nk.0;
                if !nk.1.as_str().is_empty() {
                    dok.protokollant.kuerzel = nk.1;
                    dok.protokollant.kuerzel_manuell = true;
                }
                assert(dok@ =~~= protokollfuehrer_dok(old(dok)@, t@));
            }
        },
        Abschnitt::Teilnehmer => {
            let p_punkt = zeichen_von("- ");
            if hat_praefix(t, &p_punkt) {
                let rest = teilbereich(t, p_punkt.len(), t.len());
                proof {
                    assert(rest@ =~= t@.skip("- "@.len() as int));
                }
                let nk = name_kuerzel_zeichen(&rest);
                let mut p = Person::new();
                p.name = nk.0;
                if !nk.1.as_str().is_empty() {
                    p.kuerzel = nk.1;
                    p.kuerzel_manuell = true;
                }
                let ghost vorher = dok.teilnehmer.deep_view();
                dok.teilnehmer.push(p);
                proof {
                    assert(p@ =~~= person_aus(t@.skip("- "@.len() as int)));
                    assert(dok.teilnehmer.deep_view() =~~= vorher.push(
                        person_aus(t@.skip("- "@.len() as int)),
                    ));
                    assert(dok@ =~~= teilnehmer_dok(old(dok)@, t@));
                }
            }
        },
        Abschnitt::ZurKenntnis => {
            let p_punkt = zeichen_von("- ");
            if hat_praefix(t, &p_punkt) {
                let rest = teilbereich(t, p_punkt.len(), t.len());
                proof {
                    assert(rest@ =~= t@.skip("- "@.len() as int));
                }
                let nk = name_kuerzel_zeichen(&rest);
                let mut p = Person::new();
                p.name = nk.0;
                if !nk.1.as_str().is_empty() {
                    p.kuerzel = nk.1;
                    p.kuerzel_manuell = true;
                }
                let ghost vorher = dok.zur_kenntnis.deep_view();
                dok.zur_kenntnis.push(p);
                proof {
                    assert(p@ =~~= person_aus(t@.skip("- "@.len() as int)));
                    assert(dok.zur_kenntnis.deep_view() =~~= vorher.push(
                        person_aus(t@.skip("- "@.len() as int)),
                    ));
                    assert(dok@ =~~= kenntnis_dok(old(dok)@, t@));
                }
            }
        },
        Abschnitt::UeberMeeting => {
            let strich = zeichen_von("---");
            if !zeichen_gleich(t, &strich) {
                let kopie = teilbereich(zeile, 0, zeile.len());
                proof {
                    assert(kopie@ =~= zeile@);
                }
                let ghost vorher = ueber_zeilen.deep_view();
                ueber_zeilen.push(kopie);
                proof {
                    assert(ueber_zeilen.deep_view() =~~= vorher.push(zeile@));
                }
            }
        },
        Abschnitt::Status => {
            let p_entwurf = zeichen_von("- [x] Entwurf");
            let p_frei = zeichen_von("- [x] Freigegeben");
            if hat_praefix(t, &p_entwurf) {
                dok.ist_entwurf = true;
                dok.ist_freigegeben = false;
            } else if hat_praefix(t, &p_frei) {
                dok.ist_entwurf = false;
                dok.ist_freigegeben = true;
            }
            assert(dok@ =~~= status_dok(old(dok)@, t@));
        },
        Abschnitt::Klassifizierung => {
            let p_oeff = zeichen_von("- [x] Öffentlich");
            let p_intern = zeichen_von("- [x] Intern");
            let p_vertr = zeichen_von("- [x] Vertraulich");
            let p_streng = zeichen_von("- [x] Streng vertraulich");
            if hat_praefix(t, &p_oeff) {
                dok.sicherheit = Sicherheit::Oeffentlich;
            } else if hat_praefix(t, &p_intern) {
                dok.sicherheit = Sicherheit::Intern;
            } else if hat_praefix(t, &p_vertr) {
                dok.sicherheit = Sicherheit::Vertraulich;
            } else if hat_praefix(t, &p_streng) {
                dok.sicherheit = Sicherheit::StrengVertraulich;
            }
            assert(dok@ =~~= klass_dok(old(dok)@, t@));
        },
        Abschnitt::Eintraege => {
            eintraege_zeile(dok, n, t);
        },
    }
}

/// Applies one input line to the decoder state.
fn zeile_verarbeiten(
    dok: &mut Protokoll,
    abschnitt: &mut Abschnitt,
    n: &mut usize,
    ueber_zeilen: &mut Vec<Vec<char>>,
    zeile: &Vec<char>,
)
    requires
        *old(n) < usize::MAX,
    ensures
        ({
            let alt = LeseZustand {
                dok: old(dok)@,
                abschnitt: *old(abschnitt),
                tabellenzeilen: *old(n) as int,
                ueber_zeilen: old(ueber_zeilen).deep_view(),
            };
            let neu = lese_schritt(alt, zeile@);
            final(dok)@ == neu.dok && *final(abschnitt) == neu.abschnitt && *final(n) as int
                == neu.tabellenzeilen && final(ueber_zeilen).deep_view() == neu.ueber_zeilen
        }),
        *final(n) <= *old(n) + 1,
{
    proof {
        reveal_strlit("**Erstellt:**");
        reveal_strlit(" von ");
    }
    let p_erstellt = zeichen_von("**Erstellt:**");
    let t = getrimmt(zeile);
    if hat_praefix(&t, &p_erstellt) {
        let von_sep = zeichen_von(" von ");
        let rest = getrimmt(&streife_praefixe_exec(&t, &p_erstellt));
        proof {
            lemma_erstes_vorkommen(rest@, von_sep@);
        }
        match finde_ab(&rest, &von_sep, 0) {
            Some(k) => {
                proof {
                    lemma_vorkommen_eindeutig(rest@, von_sep@, k as int);
                }
                let rest_laenge = rest.len();
                assert(k + von_sep@.len() <= rest_laenge as int);
                let nach = k + von_sep.len();
                dok.erstellt_am = text_von(&getrimmt(&teilbereich(&rest, 0, k)));
                dok.erstellt_von = text_von(&getrimmt(&teilbereich(&rest, nach, rest_laenge)));
            },
            None => {
                proof {
                    lemma_vorkommen_eindeutig(rest@, von_sep@, rest@.len() as int);
                }
            },
        }
        proof {
            assert(dok@ =~~= erstellt_schritt(old(dok)@, t@));
        }
        return ;
    }
    let p_raute = zeichen_von("## ");
    if hat_praefix(&t, &p_raute) {
        let ghost alt = LeseZustand {
            dok: old(dok)@,
            abschnitt: *old(abschnitt),
            tabellenzeilen: *old(n) as int,
            ueber_zeilen: old(ueber_zeilen).deep_view(),
        };
        if matches!(*abschnitt, Abschnitt::UeberMeeting) {
            let umbruch = zeichen_von("\n");
            let verbunden = verbinden(ueber_zeilen, &umbruch);
            dok.ueber_meeting = text_von(&getrimmt(&verbunden));
            *ueber_zeilen = Vec::new();
            proof {
                assert(ueber_zeilen.deep_view() =~= Seq::<Seq<char>>::empty());
                assert(dok@ =~~= ueber_fluss(alt).dok);
            }
        } else {
            assert(ueber_fluss(alt) == alt);
        }
        let p_prot = zeichen_von("## Protokollführer");
        let p_teiln = zeichen_von("## Teilnehmer");
        let p_kennt = zeichen_von("## Zur Kenntnis");
        let p_ueber = zeichen_von("## Über dieses Meeting");
        let p_status = zeichen_von("## Status");
        let p_klass = zeichen_von("## Klassifizierung");
        let p_eintr = zeichen_von("## Einträge");
        if hat_praefix(&t, &p_prot) {
            *abschnitt = Abschnitt::Protokollfuehrer;
        } else if hat_praefix(&t, &p_teiln) {
            *abschnitt = Abschnitt::Teilnehmer;
        } else if hat_praefix(&t, &p_kennt) {
            *abschnitt = Abschnitt::ZurKenntnis;
        } else if hat_praefix(&t, &p_ueber) {
            *abschnitt = Abschnitt::UeberMeeting;
        } else if hat_praefix(&t, &p_status) {
            *abschnitt = Abschnitt::Status;
        } else if hat_praefix(&t, &p_klass) {
            *abschnitt = Abschnitt::Klassifizierung;
        } else if hat_praefix(&t, &p_eintr) {
            *abschnitt = Abschnitt::Eintraege;
            *n = 0;
        } else {
            abschnitt_zeile(dok, *abschnitt, n, ueber_zeilen, zeile, &t);
        }
        return ;
    }
    abschnitt_zeile(dok, *abschnitt, n, ueber_zeilen, zeile, &t);
}

impl Protokoll {
    /// Reads a document in the Markdown grammar back, replacing every
    /// field. Malformed input never fails: unknown lines are ignored,
    /// short table rows are dropped, and missing sections leave their
    /// fields at the reset defaults.
    pub fn markdown_parsen(&mut self, content: &str)
        ensures
            final(self)@ == parse_spec(content@),
            final(self)@.wohlgeformt(),
    {
        let mut dok = Protokoll {
            projekt: String::new(),
            titel: String::new(),
            datum_text: String::new(),
            ort: String::new(),
            protokollant: Person::new(),
            teilnehmer: Vec::new(),
            zur_kenntnis: Vec::new(),
            ueber_meeting: String::new(),
            ist_entwurf: true,
            ist_freigegeben: false,
            sicherheit: Sicherheit::Intern,
            eintraege: Vec::new(),
            erstellt_am: String::new(),
            erstellt_von: String::new(),
        };
        let mut abschnitt = Abschnitt::Kopf;
        let mut tabellenzeilen: usize = 0;
        let mut ueber_zeilen: Vec<Vec<char>> = Vec::new();
        proof {
            assert(dok.teilnehmer.deep_view() =~= Seq::<PersonAnsicht>::empty());
            assert(dok.zur_kenntnis.deep_view() =~= Seq::<PersonAnsicht>::empty());
            assert(dok.eintraege.deep_view() =~= Seq::<EintragAnsicht>::empty());
            assert(ueber_zeilen.deep_view() =~= Seq::<Seq<char>>::empty());
            assert(dok@ =~~= lese_anfang().dok);
        }

        let inhalt = zeichen_von(content);
        let zs = zeilen(&inhalt);
        let ghost alle = zeilen_spec(content@);
        let mut i: usize = 0;
        proof {
            assert(lese_zeilen(alle.subrange(0, 0)) == lese_anfang()) by {
                assert(alle.subrange(0, 0) =~= Seq::<Seq<char>>::empty());
            }
        }
        while i < zs.len()
            invariant
                i <= zs@.len(),
                zs.deep_view() == alle,
                alle == zeilen_spec(content@),
                dok@ == lese_zeilen(alle.subrange(0, i as int)).dok,
                abschnitt == lese_zeilen(alle.subrange(0, i as int)).abschnitt,
                tabellenzeilen as int == lese_zeilen(alle.subrange(0, i as int)).tabellenzeilen,
                ueber_zeilen.deep_view() == lese_zeilen(alle.subrange(0, i as int)).ueber_zeilen,
                tabellenzeilen <= i,
            decreases zs@.len() - i,
        {
            let ghost vorher = lese_zeilen(alle.subrange(0, i as int));
            let zeile = &zs[i];
            proof {
                assert(zs.deep_view()[i as int] =~= zs@[i as int]@);
            }
            let ghost zeile_g = alle[i as int];
            zeile_verarbeiten(&mut dok, &mut abschnitt, &mut tabellenzeilen, &mut ueber_zeilen, zeile);
            proof {
                let danach = alle.subrange(0, i + 1);
                assert(danach.drop_last() =~= alle.subrange(0, i as int));
                assert(danach.last() == zeile_g);
                assert(lese_zeilen(danach) == lese_schritt(vorher, zeile_g));
            }
            i = i + 1;
        }
        proof {
            assert(alle.subrange(0, alle.len() as int) =~= alle);
        }
        if matches!(abschnitt, Abschnitt::UeberMeeting) {
            let umbruch = zeichen_von("\n");
            let verbunden = verbinden(&ueber_zeilen, &umbruch);
            dok.ueber_meeting = text_von(&getrimmt(&verbunden));
        }
        if dok.teilnehmer.len() == 0 {
            dok.teilnehmer.push(Person::new());
            assert(dok.teilnehmer.deep_view() =~~= seq![PersonAnsicht::leer()]);
        }
        if dok.zur_kenntnis.len() == 0 {
            dok.zur_kenntnis.push(Person::new());
            assert(dok.zur_kenntnis.deep_view() =~~= seq![PersonAnsicht::leer()]);
        }
        if dok.eintraege.len() == 0 {
            dok.eintraege.push(Eintrag::new());
            assert(dok.eintraege.deep_view() =~~= seq![EintragAnsicht::leer()]);
        }
        proof {
            assert(dok@ =~~= parse_spec(content@));
            lemma_parse_wohlgeformt(content@);
        }
        *self = dok;
    }
}


/// Number of lines whose trimmed form begins with a pipe — the lines
/// that the entries section would count as table rows.
pub open spec fn rohr_zeilen(zs: Seq<Seq<char>>) -> int
    decreases zs.len(),
{
    if zs.len() == 0 {
        0
    } else {
        rohr_zeilen(zs.drop_last()) + if ist_praefix("|"@, trim_spec(zs.last())) {
            1int
        } else {
            0int
        }
    }
}

proof fn lemma_wenige_rohr_schritt(z: LeseZustand, zeile: Seq<char>)
    requires
        z.dok.eintraege == Seq::<EintragAnsicht>::empty(),
        z.tabellenzeilen >= 0,
        ist_praefix("|"@, trim_spec(zeile)) ==> z.tabellenzeilen <= 1,
    ensures
        lese_schritt(z, zeile).dok.eintraege == Seq::<EintragAnsicht>::empty(),
        lese_schritt(z, zeile).tabellenzeilen >= 0,
        lese_schritt(z, zeile).tabellenzeilen <= z.tabellenzeilen + (if ist_praefix(
            "|"@,
            trim_spec(zeile),
        ) {
            1int
        } else {
            0int
        }),
{
    let t = trim_spec(zeile);
    if ist_praefix("**Erstellt:**"@, t) {
    } else {
        let z1 = if ist_praefix("## "@, t) {
            ueber_fluss(z)
        } else {
            z
        };
        if z1.abschnitt == Abschnitt::Kopf {
            lemma_meta_falten_erhaelt(z1.dok, teile_spec(t, " | "@));
        }
    }
}

proof fn lemma_wenige_rohr_fold(zs: Seq<Seq<char>>)
    requires
        rohr_zeilen(zs) <= 2,
    ensures
        lese_zeilen(zs).dok.eintraege == Seq::<EintragAnsicht>::empty(),
        0 <= lese_zeilen(zs).tabellenzeilen <= rohr_zeilen(zs),
    decreases zs.len(),
{
    if zs.len() > 0 {
        let vorn = zs.drop_last();
        lemma_rohr_zeilen_nichtnegativ(vorn);
        lemma_wenige_rohr_fold(vorn);
        lemma_wenige_rohr_schritt(lese_zeilen(vorn), zs.last());
    }
}

proof fn lemma_rohr_zeilen_nichtnegativ(zs: Seq<Seq<char>>)
    ensures
        rohr_zeilen(zs) >= 0,
    decreases zs.len(),
{
    if zs.len() > 0 {
        lemma_rohr_zeilen_nichtnegativ(zs.drop_last());
    }
}

/// Decoding a text that holds no data row — at most the table's heading
/// and separator among its pipe-prefixed lines, or no table at all —
/// yields a document whose entries list holds exactly the one empty
/// placeholder.
pub proof fn lemma_ohne_datenzeilen_platzhalter(text: Seq<char>)
    requires
        rohr_zeilen(zeilen_spec(text)) <= 2,
    ensures
        parse_spec(text).eintraege == seq![EintragAnsicht::leer()],
{
    lemma_wenige_rohr_fold(zeilen_spec(text));
}

/// A category's table-cell label reads back as the same category: the
/// cell written by the encoder is matched to the variant it came from,
/// the empty label of the empty category included.
pub proof fn lemma_art_rundreise(a: Art)
    ensures
        art_parsen_spec(a.selected_label_spec()) == a,
{
    reveal_strlit("");
    reveal_strlit("ABGEBROCHEN");
    reveal_strlit("AGENDA");
    reveal_strlit("ENTSCHEIDUNG");
    reveal_strlit("FERTIG");
    reveal_strlit("IDEE");
    reveal_strlit("INFO");
    reveal_strlit("TODO");
    let beschriftung = a.selected_label_spec();
    crate::text::lemma_trim_fest(beschriftung);
    assert(trim_spec(beschriftung) == beschriftung);
}


/// A person line written by the encoder reads back as the same person:
/// for a trimmed, non-empty name without an opening bracket and a
/// trimmed code without one, splitting `Name [Code]` — or the bare name
/// when the code is empty — returns exactly the encoded fields.
pub proof fn lemma_person_zeile_rundreise(p: PersonAnsicht)
    requires
        trim_spec(p.name) == p.name,
        p.name.len() > 0,
        forall|i: int| 0 <= i < p.name.len() ==> p.name[i] != '[',
        trim_spec(p.kuerzel) == p.kuerzel,
        forall|i: int| 0 <= i < p.kuerzel.len() ==> p.kuerzel[i] != '[',
    ensures
        name_kuerzel_spec(person_zeile_spec(p)) == (p.name, p.kuerzel),
{
    reveal_strlit(" [");
    reveal_strlit("]");
    let t = person_zeile_spec(p);
    crate::text::lemma_trim_fest_umkehr(p.name);
    if p.kuerzel.len() == 0 {
        crate::text::lemma_trim_fest(t);
        crate::text::lemma_letzte_eindeutig(t, '[', -1);
        assert(name_kuerzel_spec(t) == (t, Seq::<char>::empty()));
    } else {
        crate::text::lemma_trim_fest_umkehr(p.kuerzel);
        let nl = p.name.len() as int;
        let kl = p.kuerzel.len() as int;
        assert(t.len() == nl + kl + 3);
        assert forall|i: int| 0 <= i < t.len() implies t[i] == (if i < nl {
            p.name[i]
        } else if i == nl {
            ' '
        } else if i == nl + 1 {
            '['
        } else if i < nl + 2 + kl {
            p.kuerzel[i - nl - 2]
        } else {
            ']'
        }) by {
            assert(t == p.name + " ["@ + p.kuerzel + "]"@);
        }
        assert(t[0] == p.name[0]);
        assert(t[t.len() - 1] == ']');
        assert(!crate::text::ist_leerraum(']'));
        crate::text::lemma_trim_fest(t);
        assert forall|j: int| nl + 1 < j < t.len() implies t[j] != '[' by {
            if j < nl + 2 + kl {
                assert(t[j] == p.kuerzel[j - nl - 2]);
            }
        }
        crate::text::lemma_letzte_eindeutig(t, '[', nl + 1);
        crate::text::lemma_letzte_eindeutig(t, ']', t.len() - 1);
        let vorn = t.subrange(0, nl + 1);
        assert(vorn =~= p.name.push(' '));
        assert(trim_spec(vorn) == p.name) by {
            assert(crate::text::trim_links_spec(vorn) == vorn);
            assert(vorn[vorn.len() - 1] == ' ');
            assert(vorn.drop_last() =~= p.name);
            assert(crate::text::trim_rechts_spec(vorn) == crate::text::trim_rechts_spec(p.name));
            assert(crate::text::trim_rechts_spec(p.name) == p.name) by {
                assert(crate::text::trim_links_spec(p.name) == p.name);
            }
        }
        let mitte = t.subrange(nl + 2, t.len() - 1);
        assert(mitte =~= p.kuerzel);
        assert(name_kuerzel_spec(t) == (trim_spec(vorn), trim_spec(mitte)));
    }
}


/// A list in which every entry is empty contributes no rows, so the
/// whole entries table with its heading is omitted from the encoded
/// text.
pub proof fn lemma_eintraege_leer(es: Seq<EintragAnsicht>)
    requires
        forall|i: int| 0 <= i < es.len() ==> (#[trigger] es[i]).ist_leer(),
    ensures
        eintraege_teil_spec_liste(es) == Seq::<char>::empty(),
{
}

/// Replacement leaves a text without the pattern unchanged.
pub proof fn lemma_ersetze_identitaet(s: Seq<char>, m: Seq<char>, e: Seq<char>)
    requires
        m.len() > 0,
        forall|i: int| 0 <= i ==> !crate::text::kommt_vor_bei(s, m, i),
    ensures
        ersetze_spec(s, m, e) == s,
    decreases s.len(),
{
    if s.len() > 0 {
        if ist_praefix(m, s) {
            assert(crate::text::kommt_vor_bei(s, m, 0)) by {
                assert(s.subrange(0, m.len() as int) == m);
            }
        }
        let rest = s.drop_first();
        assert forall|i: int| 0 <= i implies !crate::text::kommt_vor_bei(rest, m, i) by {
            if crate::text::kommt_vor_bei(rest, m, i) {
                assert(rest.subrange(i, i + m.len()) =~= s.subrange(i + 1, i + 1 + m.len()));
                assert(crate::text::kommt_vor_bei(s, m, i + 1));
            }
        }
        lemma_ersetze_identitaet(rest, m, e);
        assert(seq![s[0]] + rest =~= s);
    }
}

/// The escaping of pipes round-trips through the cell splitter: scanning
/// the escaped text of a cell accumulates exactly the original text and
/// then continues with whatever follows. This holds for every cell text,
/// as long as what follows begins with the space that the row format
/// puts before each separator.
pub proof fn lemma_zelle_entkommen(s: Seq<char>, danach: Seq<char>, akt: Seq<char>)
    requires
        danach.len() > 0,
        danach[0] == ' ',
    ensures
        zellen_ab(zelle_spec(s) + danach, akt) == zellen_ab(danach, akt + s),
    decreases s.len(),
{
    reveal_strlit("|");
    reveal_strlit("\\|");
    assert(seq!['|'] =~= "|"@);
    let ganz = zelle_spec(s) + danach;
    if s.len() == 0 {
        assert(zelle_spec(s) == Seq::<char>::empty());
        assert(ganz =~= danach);
        assert(akt + s =~= akt);
    } else if s[0] == '|' {
        assert(ist_praefix("|"@, s)) by {
            assert(s.subrange(0, 1) =~= seq!['|']);
        }
        assert(zelle_spec(s) == "\\|"@ + zelle_spec(s.skip(1)));
        assert(ganz[0] == '\\');
        assert(ganz[1] == '|');
        assert(ganz.skip(2) =~= zelle_spec(s.skip(1)) + danach);
        lemma_zelle_entkommen(s.skip(1), danach, akt.push('|'));
        assert(akt.push('|') + s.skip(1) =~= akt + s);
    } else {
        assert(!ist_praefix("|"@, s)) by {
            if ist_praefix("|"@, s) {
                assert(s.subrange(0, 1)[0] == s[0]);
            }
        }
        assert(zelle_spec(s) == seq![s[0]] + zelle_spec(s.drop_first()));
        assert(ganz[0] == s[0]);
        assert(ganz.drop_first() =~= zelle_spec(s.drop_first()) + danach);
        let naechstes: char = if s.len() > 1 {
            if s[1] == '|' {
                '\\'
            } else {
                s[1]
            }
        } else {
            ' '
        };
        assert(ganz.len() >= 2);
        assert(ganz[1] == naechstes) by {
            if s.len() > 1 {
                if s[1] == '|' {
                    assert(ist_praefix("|"@, s.drop_first())) by {
                        assert(s.drop_first().subrange(0, 1) =~= seq!['|']);
                    }
                    assert(zelle_spec(s.drop_first()) == "\\|"@ + zelle_spec(
                        s.drop_first().skip(1),
                    ));
                } else {
                    assert(!ist_praefix("|"@, s.drop_first())) by {
                        if ist_praefix("|"@, s.drop_first()) {
                            assert(s.drop_first().subrange(0, 1)[0] == s[1]);
                        }
                    }
                    assert(zelle_spec(s.drop_first()) == seq![s[1]] + zelle_spec(
                        s.drop_first().drop_first(),
                    ));
                }
            } else {
                assert(zelle_spec(s.drop_first()) == Seq::<char>::empty());
            }
        }
        assert(naechstes != '|' || ganz[0] == '\\');
        lemma_zelle_entkommen(s.drop_first(), danach, akt.push(s[0]));
        assert(akt.push(s[0]) + s.drop_first() =~= akt + s);
        if ganz[0] == '\\' {
            assert(ganz[1] != '|');
        }
    }
}


/// A note without line breaks and without the break token survives the
/// note-cell encoding: substituting breaks does nothing, and reverting
/// the token afterwards does nothing either.
pub proof fn lemma_notiz_zelle_rundreise(s: Seq<char>)
    requires
        forall|i: int| 0 <= i ==> !crate::text::kommt_vor_bei(s, "\n"@, i),
        forall|i: int| 0 <= i ==> !crate::text::kommt_vor_bei(s, " <br> "@, i),
    ensures
        ersetze_spec(ersetze_spec(s, "\n"@, " <br> "@), " <br> "@, "\n"@) == s,
{
    reveal_strlit("\n");
    reveal_strlit(" <br> ");
    lemma_ersetze_identitaet(s, "\n"@, " <br> "@);
    lemma_ersetze_identitaet(s, " <br> "@, "\n"@);
}


/// A text without pipes is its own escaping.
proof fn lemma_ohne_rohr_identitaet(s: Seq<char>)
    requires
        forall|i: int| 0 <= i < s.len() ==> s[i] != '|',
    ensures
        zelle_spec(s) == s,
{
    reveal_strlit("|");
    assert forall|i: int| 0 <= i implies !crate::text::kommt_vor_bei(s, "|"@, i) by {
        if crate::text::kommt_vor_bei(s, "|"@, i) {
            assert(s.subrange(i, i + 1)[0] == s[i]);
        }
    }
    lemma_ersetze_identitaet(s, "|"@, "\\|"@);
}

/// No label of a category contains a pipe.
proof fn lemma_label_ohne_rohr(a: Art)
    ensures
        forall|i: int|
            0 <= i < a.selected_label_spec().len() ==> a.selected_label_spec()[i] != '|',
{
    reveal_strlit("");
    reveal_strlit("ABGEBROCHEN");
    reveal_strlit("AGENDA");
    reveal_strlit("ENTSCHEIDUNG");
    reveal_strlit("FERTIG");
    reveal_strlit("IDEE");
    reveal_strlit("INFO");
    reveal_strlit("TODO");
}

/// One cell of a row, followed by the ` |` separator, is consumed whole:
/// the splitter emits exactly the original cell text and continues after
/// the separator.
proof fn lemma_zellen_schritt(c: Seq<char>, rest: Seq<char>)
    requires
        trim_spec(c) == c,
        rest.len() > 0,
        rest[0] == ' ',
    ensures
        zellen_ab(seq![' '] + zelle_spec(c) + seq![' ', '|'] + rest, Seq::empty()) == seq![c]
            + zellen_ab(rest, Seq::empty()),
{
    let voll = seq![' '] + zelle_spec(c) + seq![' ', '|'] + rest;
    assert(voll[0] == ' ');
    assert(voll.drop_first() =~= zelle_spec(c) + (seq![' ', '|'] + rest));
    assert(voll.len() >= 2 && voll[1] != '|') by {
        reveal_strlit("|");
        reveal_strlit("\\|");
        assert(seq!['|'] =~= "|"@);
        if c.len() == 0 {
            assert(zelle_spec(c) == Seq::<char>::empty());
            assert(voll[1] == ' ');
        } else if c[0] == '|' {
            assert(ist_praefix("|"@, c)) by {
                assert(c.subrange(0, 1) =~= seq!['|']);
            }
            assert(zelle_spec(c) == "\\|"@ + zelle_spec(c.skip(1)));
            assert(voll[1] == '\\');
        } else {
            assert(!ist_praefix("|"@, c)) by {
                if ist_praefix("|"@, c) {
                    assert(c.subrange(0, 1)[0] == c[0]);
                }
            }
            assert(zelle_spec(c) == seq![c[0]] + zelle_spec(c.drop_first()));
            assert(voll[1] == c[0]);
        }
    }
    assert(zellen_ab(voll, Seq::empty()) == zellen_ab(voll.drop_first(), seq![' ']));
    let danach = seq![' ', '|'] + rest;
    assert(danach[0] == ' ');
    lemma_zelle_entkommen(c, danach, seq![' ']);
    assert(zellen_ab(voll.drop_first(), seq![' ']) == zellen_ab(danach, seq![' '] + c)) by {
        assert(voll.drop_first() =~= zelle_spec(c) + danach);
    }
    assert(danach.len() >= 2 && danach[1] == '|');
    assert(zellen_ab(danach, seq![' '] + c) == zellen_ab(
        danach.drop_first(),
        (seq![' '] + c).push(' '),
    ));
    assert(danach.drop_first() =~= seq!['|'] + rest);
    let mitte = seq!['|'] + rest;
    assert(mitte[0] == '|');
    assert(mitte.len() >= 2 && mitte[1] == ' ');
    assert(zellen_ab(mitte, (seq![' '] + c).push(' ')) == seq![
        trim_spec((seq![' '] + c).push(' ')),
    ] + zellen_ab(mitte.drop_first(), Seq::empty()));
    assert(mitte.drop_first() =~= rest);
    crate::text::lemma_trim_gepolstert(c);
    assert((seq![' '] + c).push(' ') =~= seq![' '] + c + seq![' ']);
}

/// The last cell of a row, padded by the outer spaces, is emitted whole.
proof fn lemma_zellen_ende(c: Seq<char>)
    requires
        trim_spec(c) == c,
    ensures
        zellen_ab(seq![' '] + zelle_spec(c) + seq![' '], Seq::empty()) == seq![c],
{
    let voll = seq![' '] + zelle_spec(c) + seq![' '];
    assert(voll[0] == ' ');
    assert(voll.len() >= 2 && voll[1] != '|') by {
        reveal_strlit("|");
        reveal_strlit("\\|");
        assert(seq!['|'] =~= "|"@);
        if c.len() == 0 {
            assert(zelle_spec(c) == Seq::<char>::empty());
            assert(voll[1] == ' ');
        } else if c[0] == '|' {
            assert(ist_praefix("|"@, c)) by {
                assert(c.subrange(0, 1) =~= seq!['|']);
            }
            assert(zelle_spec(c) == "\\|"@ + zelle_spec(c.skip(1)));
            assert(voll[1] == '\\');
        } else {
            assert(!ist_praefix("|"@, c)) by {
                if ist_praefix("|"@, c) {
                    assert(c.subrange(0, 1)[0] == c[0]);
                }
            }
            assert(zelle_spec(c) == seq![c[0]] + zelle_spec(c.drop_first()));
            assert(voll[1] == c[0]);
        }
    }
    assert(zellen_ab(voll, Seq::empty()) == zellen_ab(voll.drop_first(), seq![' ']));
    assert(voll.drop_first() =~= zelle_spec(c) + seq![' ']);
    lemma_zelle_entkommen(c, seq![' '], seq![' ']);
    let schluss = seq![' '];
    assert(schluss[0] == ' ');
    assert(zellen_ab(schluss, seq![' '] + c) == zellen_ab(
        Seq::<char>::empty(),
        (seq![' '] + c).push(' '),
    )) by {
        assert(schluss.drop_first() =~= Seq::<char>::empty());
    }
    crate::text::lemma_trim_gepolstert(c);
    assert((seq![' '] + c).push(' ') =~= seq![' '] + c + seq![' ']);
}

/// A data row written by the encoder reads back as the same entry: for
/// trimmed cells and a single-line note without the break token,
/// splitting the row yields exactly the five cells, and the entry built
/// from them equals the encoded one.
#[verifier::rlimit(100)]
pub proof fn lemma_eintrag_zeile_rundreise(e: EintragAnsicht)
    requires
        trim_spec(e.punkt) == e.punkt,
        trim_spec(e.notiz) == e.notiz,
        trim_spec(e.kuemmerer) == e.kuemmerer,
        trim_spec(e.bis) == e.bis,
        forall|i: int| 0 <= i < e.notiz.len() ==> e.notiz[i] != '\n',
        forall|i: int| 0 <= i ==> !crate::text::kommt_vor_bei(e.notiz, " <br> "@, i),
        e.art == Art::Todo ==> e.punkt.len() == 0,
    ensures
        tabellenzeile_spec(eintrag_zeile_spec(e)) == seq![
            e.punkt,
            e.art.selected_label_spec(),
            e.notiz,
            e.kuemmerer,
            e.bis,
        ],
        eintrag_aus(tabellenzeile_spec(eintrag_zeile_spec(e))) == e,
{
    reveal_strlit("| ");
    reveal_strlit(" | ");
    reveal_strlit(" |\n");
    reveal_strlit("\n");
    reveal_strlit(" <br> ");
    let a = e.art.selected_label_spec();
    proof_rundreise_vorbereitung(e);
    let n_enc = notiz_zelle_spec(e.notiz);
    assert(n_enc == zelle_spec(e.notiz)) by {
        assert forall|i: int| 0 <= i implies !crate::text::kommt_vor_bei(e.notiz, "\n"@, i) by {
            if crate::text::kommt_vor_bei(e.notiz, "\n"@, i) {
                assert(e.notiz.subrange(i, i + 1)[0] == e.notiz[i]);
            }
        }
        lemma_ersetze_identitaet(e.notiz, "\n"@, " <br> "@);
    }
    let t0 = eintrag_zeile_spec(e);
    let rest5 = seq![' '] + zelle_spec(e.bis) + seq![' '];
    let rest4 = seq![' '] + zelle_spec(e.kuemmerer) + seq![' ', '|'] + rest5;
    let rest3 = seq![' '] + n_enc + seq![' ', '|'] + rest4;
    let rest2 = seq![' '] + a + seq![' ', '|'] + rest3;
    let inner = seq![' '] + zelle_spec(e.punkt) + seq![' ', '|'] + rest2;
    assert(t0 =~= seq!['|'] + inner + seq!['|', '\n']);
    assert(t0[0] == '|');
    assert(t0[t0.len() - 1] == '\n');
    assert(trim_spec(t0) == t0.drop_last()) by {
        assert(!crate::text::ist_leerraum('|'));
        assert(crate::text::trim_links_spec(t0) == t0);
        assert(crate::text::trim_rechts_spec(t0) == crate::text::trim_rechts_spec(t0.drop_last()));
        assert(t0.drop_last()[t0.len() - 2] == '|');
        assert(crate::text::trim_rechts_spec(t0.drop_last()) == t0.drop_last());
    }
    let t1 = t0.drop_last();
    assert(t1 =~= seq!['|'] + inner + seq!['|']);
    assert(streife_links_spec(t1, '|') == inner + seq!['|']) by {
        assert(t1[0] == '|');
        assert(crate::text::streife_links_spec(t1, '|') == crate::text::streife_links_spec(
            t1.drop_first(),
            '|',
        ));
        assert(t1.drop_first() =~= inner + seq!['|']);
        assert((inner + seq!['|'])[0] == ' ');
        assert(crate::text::streife_links_spec(inner + seq!['|'], '|') == inner + seq!['|']);
    }
    let t2 = inner + seq!['|'];
    assert(streife_rechts_spec(t2, '|') == inner) by {
        assert(t2[t2.len() - 1] == '|');
        assert(crate::text::streife_rechts_spec(t2, '|') == crate::text::streife_rechts_spec(
            t2.drop_last(),
            '|',
        ));
        assert(t2.drop_last() =~= inner);
        assert(inner[inner.len() - 1] == ' ');
        assert(crate::text::streife_rechts_spec(inner, '|') == inner);
    }
    assert(tabellenzeile_spec(t0) == zellen_ab(inner, Seq::empty()));
    assert(rest2[0] == ' ' && rest3[0] == ' ' && rest4[0] == ' ' && rest5[0] == ' ');
    lemma_zellen_schritt(e.punkt, rest2);
    lemma_zellen_schritt(a, rest3);
    assert(rest2 == seq![' '] + zelle_spec(a) + seq![' ', '|'] + rest3);
    lemma_zellen_schritt(e.notiz, rest4);
    assert(rest3 == seq![' '] + zelle_spec(e.notiz) + seq![' ', '|'] + rest4);
    lemma_zellen_schritt(e.kuemmerer, rest5);
    lemma_zellen_ende(e.bis);
    let zellen = tabellenzeile_spec(t0);
    assert(zellen =~= seq![e.punkt, a, e.notiz, e.kuemmerer, e.bis]);
    lemma_art_rundreise(e.art);
    assert(eintrag_aus(zellen).notiz == e.notiz) by {
        lemma_ersetze_identitaet(e.notiz, " <br> "@, "\n"@);
    }
    assert(eintrag_aus(zellen) =~~= e);
}

/// Establishes the trim-stability of the label and the pipe-free
/// identities that the row round trip uses.
proof fn proof_rundreise_vorbereitung(e: EintragAnsicht)
    ensures
        trim_spec(e.art.selected_label_spec()) == e.art.selected_label_spec(),
        zelle_spec(e.art.selected_label_spec()) == e.art.selected_label_spec(),
{
    reveal_strlit("");
    reveal_strlit("ABGEBROCHEN");
    reveal_strlit("AGENDA");
    reveal_strlit("ENTSCHEIDUNG");
    reveal_strlit("FERTIG");
    reveal_strlit("IDEE");
    reveal_strlit("INFO");
    reveal_strlit("TODO");
    crate::text::lemma_trim_fest(e.art.selected_label_spec());
    lemma_label_ohne_rohr(e.art);
    lemma_ohne_rohr_identitaet(e.art.selected_label_spec());
}


/// The encoded project line decodes back to the same project name: the
/// header step strips the marker and trims, recovering a trimmed value.
pub proof fn lemma_projekt_zeile_rundreise(d: ProtokollAnsicht, projekt: Seq<char>)
    requires
        trim_spec(projekt) == projekt,
        projekt.len() > 0,
    ensures
        kopf_dok(d, trim_spec("**Projekt:** "@ + projekt)).projekt == projekt,
{
    reveal_strlit("**Projekt:** ");
    reveal_strlit("**Projekt:**");
    let zeile = "**Projekt:** "@ + projekt;
    crate::text::lemma_trim_fest_umkehr(projekt);
    assert(zeile[0] == '*');
    assert(zeile[zeile.len() - 1] == projekt[projekt.len() - 1]);
    crate::text::lemma_trim_fest(zeile);
    let t = zeile;
    assert(ist_praefix("**Projekt:**"@, t)) by {
        assert(t.subrange(0, 12) =~= "**Projekt:**"@);
    }
    let rest = seq![' '] + projekt;
    assert(streife_praefixe(t, "**Projekt:**"@) == rest) by {
        assert("**Projekt:**"@.len() == 12);
        assert(t.len() > 0);
        assert(streife_praefixe(t, "**Projekt:**"@) == streife_praefixe(
            t.skip(12),
            "**Projekt:**"@,
        ));
        assert(t.skip(12) =~= rest);
        assert(!ist_praefix("**Projekt:**"@, rest)) by {
            if ist_praefix("**Projekt:**"@, rest) {
                assert(rest.subrange(0, 12)[0] == ' ');
            }
        }
        assert(streife_praefixe(rest, "**Projekt:**"@) == rest);
    }
    assert(trim_spec(seq![' '] + projekt) == projekt) by {
        let rest = seq![' '] + projekt;
        assert(rest[0] == ' ');
        assert(crate::text::trim_links_spec(rest) == crate::text::trim_links_spec(
            rest.drop_first(),
        ));
        assert(rest.drop_first() =~= projekt);
        assert(crate::text::trim_links_spec(projekt) == projekt);
        assert(crate::text::trim_rechts_spec(projekt) == projekt);
    }
}

/// The encoded title line decodes back to the same title: everything
/// after the heading mark is taken unchanged.
pub proof fn lemma_titel_zeile_rundreise(d: ProtokollAnsicht, titel: Seq<char>)
    requires
        trim_spec(titel) == titel,
        titel.len() > 0,
    ensures
        kopf_dok(d, trim_spec("# "@ + titel)).titel == titel,
{
    reveal_strlit("# ");
    reveal_strlit("**Projekt:**");
    let zeile = "# "@ + titel;
    crate::text::lemma_trim_fest_umkehr(titel);
    assert(zeile[0] == '#');
    assert(zeile[zeile.len() - 1] == titel[titel.len() - 1]);
    crate::text::lemma_trim_fest(zeile);
    assert(!ist_praefix("**Projekt:**"@, zeile)) by {
        if ist_praefix("**Projekt:**"@, zeile) {
            assert(zeile.subrange(0, 12)[0] == '#');
        }
    }
    assert(ist_praefix("# "@, zeile)) by {
        assert(zeile.subrange(0, 2) =~= "# "@);
    }
    assert(zeile.skip("# "@.len() as int) =~= titel);
}

/// The two encoded status lines decode back to the same flags: the
/// checked box sets its flag and clears the other, and the unchecked
/// line changes nothing.
pub proof fn lemma_status_zeilen_rundreise(d: ProtokollAnsicht, entwurf: bool)
    ensures
        entwurf ==> ({
            let nach = status_dok(status_dok(d, trim_spec("- [x] Entwurf"@)), trim_spec(
                "- [ ] Freigegeben"@,
            ));
            nach.ist_entwurf && !nach.ist_freigegeben
        }),
        !entwurf ==> ({
            let nach = status_dok(status_dok(d, trim_spec("- [ ] Entwurf"@)), trim_spec(
                "- [x] Freigegeben"@,
            ));
            !nach.ist_entwurf && nach.ist_freigegeben
        }),
{
    reveal_strlit("- [x] Entwurf");
    reveal_strlit("- [ ] Entwurf");
    reveal_strlit("- [x] Freigegeben");
    reveal_strlit("- [ ] Freigegeben");
    crate::text::lemma_trim_fest("- [x] Entwurf"@);
    crate::text::lemma_trim_fest("- [ ] Entwurf"@);
    crate::text::lemma_trim_fest("- [x] Freigegeben"@);
    crate::text::lemma_trim_fest("- [ ] Freigegeben"@);
    assert(ist_praefix("- [x] Entwurf"@, "- [x] Entwurf"@)) by {
        assert("- [x] Entwurf"@.subrange(0, 13) =~= "- [x] Entwurf"@);
    }
    assert(ist_praefix("- [x] Freigegeben"@, "- [x] Freigegeben"@)) by {
        assert("- [x] Freigegeben"@.subrange(0, 17) =~= "- [x] Freigegeben"@);
    }
    assert(!ist_praefix("- [x] Entwurf"@, "- [x] Freigegeben"@)) by {
        if ist_praefix("- [x] Entwurf"@, "- [x] Freigegeben"@) {
            assert("- [x] Freigegeben"@.subrange(0, 13)[7] == 'r');
        }
    }
    assert(!ist_praefix("- [x] Entwurf"@, "- [ ] Freigegeben"@)) by {
        if ist_praefix("- [x] Entwurf"@, "- [ ] Freigegeben"@) {
            assert("- [ ] Freigegeben"@.subrange(0, 13)[3] == ' ');
        }
    }
    assert(!ist_praefix("- [x] Freigegeben"@, "- [ ] Freigegeben"@)) by {
        if ist_praefix("- [x] Freigegeben"@, "- [ ] Freigegeben"@) {
            assert("- [ ] Freigegeben"@.subrange(0, 17)[3] == ' ');
        }
    }
    assert(!ist_praefix("- [x] Entwurf"@, "- [ ] Entwurf"@)) by {
        if ist_praefix("- [x] Entwurf"@, "- [ ] Entwurf"@) {
            assert("- [ ] Entwurf"@.subrange(0, 13)[3] == ' ');
        }
    }
    assert(!ist_praefix("- [x] Freigegeben"@, "- [ ] Entwurf"@)) by {
        if ist_praefix("- [x] Freigegeben"@, "- [ ] Entwurf"@) {
            assert("- [ ] Entwurf"@.subrange(0, 17)[3] == ' ');
        }
    }
    assert(!ist_praefix("- [x] Freigegeben"@, "- [x] Entwurf"@)) by {
        if ist_praefix("- [x] Freigegeben"@, "- [x] Entwurf"@) {
            assert("- [x] Entwurf"@.subrange(0, 17)[7] == 'E');
        }
    }
}

/// A checked classification line decodes back to its own level,
/// whichever level was active before.
pub proof fn lemma_klass_zeile_rundreise(d: ProtokollAnsicht, stufe: Sicherheit)
    ensures
        klass_dok(d, trim_spec("- [x] "@ + stufe.label_spec())).sicherheit == stufe,
{
    reveal_strlit("- [x] ");
    reveal_strlit("- [x] Öffentlich");
    reveal_strlit("- [x] Intern");
    reveal_strlit("- [x] Vertraulich");
    reveal_strlit("- [x] Streng vertraulich");
    reveal_strlit("Öffentlich");
    reveal_strlit("Intern");
    reveal_strlit("Vertraulich");
    reveal_strlit("Streng vertraulich");
    let zeile = "- [x] "@ + stufe.label_spec();
    crate::text::lemma_trim_fest(zeile);
    match stufe {
        Sicherheit::Oeffentlich => {
            assert(zeile =~= "- [x] Öffentlich"@);
            assert(ist_praefix("- [x] Öffentlich"@, zeile)) by {
                assert(zeile.subrange(0, zeile.len() as int) =~= zeile);
            }
        },
        Sicherheit::Intern => {
            assert(zeile =~= "- [x] Intern"@);
            assert(ist_praefix("- [x] Intern"@, zeile)) by {
                assert(zeile.subrange(0, zeile.len() as int) =~= zeile);
            }
            assert(!ist_praefix("- [x] Öffentlich"@, zeile)) by {
                if ist_praefix("- [x] Öffentlich"@, zeile) {
                    assert(zeile.subrange(0, 16)[7] == 'I');
                }
            }
        },
        Sicherheit::Vertraulich => {
            assert(zeile =~= "- [x] Vertraulich"@);
            assert(ist_praefix("- [x] Vertraulich"@, zeile)) by {
                assert(zeile.subrange(0, zeile.len() as int) =~= zeile);
            }
            assert(!ist_praefix("- [x] Öffentlich"@, zeile)) by {
                if ist_praefix("- [x] Öffentlich"@, zeile) {
                    assert(zeile.subrange(0, 16)[7] == 'V');
                }
            }
            assert(!ist_praefix("- [x] Intern"@, zeile)) by {
                if ist_praefix("- [x] Intern"@, zeile) {
                    assert(zeile.subrange(0, 12)[7] == 'V');
                }
            }
        },
        Sicherheit::StrengVertraulich => {
            assert(zeile =~= "- [x] Streng vertraulich"@);
            assert(ist_praefix("- [x] Streng vertraulich"@, zeile)) by {
                assert(zeile.subrange(0, zeile.len() as int) =~= zeile);
            }
            assert(!ist_praefix("- [x] Öffentlich"@, zeile)) by {
                if ist_praefix("- [x] Öffentlich"@, zeile) {
                    assert(zeile.subrange(0, 16)[7] == 'S');
                }
            }
            assert(!ist_praefix("- [x] Intern"@, zeile)) by {
                if ist_praefix("- [x] Intern"@, zeile) {
                    assert(zeile.subrange(0, 12)[7] == 'S');
                }
            }
            assert(!ist_praefix("- [x] Vertraulich"@, zeile)) by {
                if ist_praefix("- [x] Vertraulich"@, zeile) {
                    assert(zeile.subrange(0, 17)[7] == 'S');
                }
            }
        },
    }
}


/// The encoded creation line decodes back to the same stamp and name:
/// the text after the marker splits at the first ` von ` into the two
/// fields. The timestamp notation — digits, dots, a colon and a space —
/// never holds a `v`, which is what keeps the split point unique.
pub proof fn lemma_erstellt_zeile_rundreise(
    d: ProtokollAnsicht,
    am: Seq<char>,
    von: Seq<char>,
)
    requires
        trim_spec(am) == am,
        am.len() > 0,
        trim_spec(von) == von,
        von.len() > 0,
        forall|i: int| 0 <= i < am.len() ==> am[i] != 'v',
    ensures
        ({
            let nach = erstellt_schritt(d, trim_spec("**Erstellt:** "@ + am + " von "@ + von));
            nach.erstellt_am == am && nach.erstellt_von == von
        }),
{
    reveal_strlit("**Erstellt:** ");
    reveal_strlit("**Erstellt:**");
    reveal_strlit(" von ");
    let zeile = "**Erstellt:** "@ + am + " von "@ + von;
    crate::text::lemma_trim_fest_umkehr(am);
    crate::text::lemma_trim_fest_umkehr(von);
    assert(zeile[0] == '*');
    assert(zeile[zeile.len() - 1] == von[von.len() - 1]);
    crate::text::lemma_trim_fest(zeile);
    let t = zeile;
    assert(ist_praefix("**Erstellt:**"@, t)) by {
        assert(t.subrange(0, 13) =~= "**Erstellt:**"@);
    }
    let uebrig = seq![' '] + am + " von "@ + von;
    assert(streife_praefixe(t, "**Erstellt:**"@) == uebrig) by {
        assert("**Erstellt:**"@.len() == 13);
        assert(t.len() > 0);
        assert(streife_praefixe(t, "**Erstellt:**"@) == streife_praefixe(
            t.skip(13),
            "**Erstellt:**"@,
        ));
        assert(t.skip(13) =~= uebrig);
        assert(!ist_praefix("**Erstellt:**"@, uebrig)) by {
            if ist_praefix("**Erstellt:**"@, uebrig) {
                assert(uebrig.subrange(0, 13)[0] == ' ');
            }
        }
        assert(streife_praefixe(uebrig, "**Erstellt:**"@) == uebrig);
    }
    let rest = am + " von "@ + von;
    assert(trim_spec(uebrig) == rest) by {
        assert(uebrig[0] == ' ');
        assert(crate::text::trim_links_spec(uebrig) == crate::text::trim_links_spec(
            uebrig.drop_first(),
        ));
        assert(uebrig.drop_first() =~= rest);
        assert(rest[0] == am[0] && !crate::text::ist_leerraum(rest[0]));
        assert(crate::text::trim_links_spec(rest) == rest);
        assert(rest[rest.len() - 1] == von[von.len() - 1]);
        assert(crate::text::trim_rechts_spec(rest) == rest);
    }
    let nl = am.len() as int;
    assert(crate::text::kommt_vor_bei(rest, " von "@, nl)) by {
        assert(rest.subrange(nl, nl + 5) =~= " von "@);
    }
    assert forall|j: int| 0 <= j < nl implies !crate::text::kommt_vor_bei(rest, " von "@, j) by {
        if crate::text::kommt_vor_bei(rest, " von "@, j) {
            assert(rest.subrange(j, j + 5)[1] == 'v');
            assert(rest[j + 1] == 'v');
            if j + 1 < nl {
                assert(rest[j + 1] == am[j + 1]);
            } else {
                assert(rest[j + 1] == ' ');
            }
        }
    }
    crate::text::lemma_vorkommen_eindeutig(rest, " von "@, nl);
    assert(crate::text::erstes_vorkommen(rest, " von "@) == nl);
    assert(rest.subrange(0, nl) =~= am);
    assert(rest.subrange(nl + " von "@.len(), rest.len() as int) =~= von);
}


/// The encoded date/location line decodes back to the same two fields:
/// the line splits at the ` | ` joiner, and each part strips its marker.
/// Pipes inside the fields would move the split, so they are excluded.
#[verifier::rlimit(100)]
pub proof fn lemma_meta_zeile_rundreise(d: ProtokollAnsicht, datum: Seq<char>, ort: Seq<char>)
    requires
        trim_spec(datum) == datum,
        datum.len() > 0,
        trim_spec(ort) == ort,
        ort.len() > 0,
        forall|i: int| 0 <= i < datum.len() ==> datum[i] != '|',
        forall|i: int| 0 <= i < ort.len() ==> ort[i] != '|',
    ensures
        ({
            let nach = kopf_dok(
                d,
                trim_spec("**Datum:** "@ + datum + " | "@ + "**Ort:** "@ + ort),
            );
            nach.datum_text == datum && nach.ort == ort
        }),
{
    reveal_strlit("**Datum:** ");
    reveal_strlit("**Datum:**");
    reveal_strlit("**Ort:** ");
    reveal_strlit("**Ort:**");
    reveal_strlit("**Projekt:**");
    reveal_strlit("# ");
    reveal_strlit(" | ");
    let t = "**Datum:** "@ + datum + " | "@ + "**Ort:** "@ + ort;
    crate::text::lemma_trim_fest_umkehr(datum);
    crate::text::lemma_trim_fest_umkehr(ort);
    assert(t[0] == '*');
    assert(t[t.len() - 1] == ort[ort.len() - 1]);
    crate::text::lemma_trim_fest(t);
    assert(!ist_praefix("**Projekt:**"@, t)) by {
        if ist_praefix("**Projekt:**"@, t) {
            assert(t.subrange(0, 12)[2] == 'D');
        }
    }
    assert(!ist_praefix("# "@, t)) by {
        if ist_praefix("# "@, t) {
            assert(t.subrange(0, 2)[0] == '*');
        }
    }
    assert(crate::text::kommt_vor_bei(t, "**Datum:**"@, 0)) by {
        assert(t.subrange(0, 10) =~= "**Datum:**"@);
    }
    crate::text::lemma_erstes_vorkommen(t, "**Datum:**"@);
    assert(enthaelt(t, "**Datum:**"@)) by {
        if crate::text::erstes_vorkommen(t, "**Datum:**"@) > 0 {
            assert(!crate::text::kommt_vor_bei(t, "**Datum:**"@, 0));
        }
    }
    let dl = datum.len() as int;
    let p = 11 + dl;
    let teil1 = t.subrange(0, p);
    let teil2 = t.subrange(p + 3, t.len() as int);
    assert(teil1 =~= "**Datum:** "@ + datum);
    assert(teil2 =~= "**Ort:** "@ + ort);
    assert(crate::text::kommt_vor_bei(t, " | "@, p)) by {
        assert(t.subrange(p, p + 3) =~= " | "@);
    }
    assert forall|j: int| 0 <= j < p implies !crate::text::kommt_vor_bei(t, " | "@, j) by {
        if crate::text::kommt_vor_bei(t, " | "@, j) {
            assert(t.subrange(j, j + 3)[1] == '|');
            assert(t[j + 1] == '|');
            if j + 1 < 11 {
                assert(t[j + 1] == "**Datum:** "@[j + 1]);
            } else if j + 1 < p {
                assert(t[j + 1] == datum[j + 1 - 11]);
            } else {
                assert(t[j + 1] == ' ');
            }
        }
    }
    crate::text::lemma_vorkommen_eindeutig(t, " | "@, p);
    assert forall|j: int| 0 <= j implies !crate::text::kommt_vor_bei(teil2, " | "@, j) by {
        if crate::text::kommt_vor_bei(teil2, " | "@, j) {
            assert(teil2.subrange(j, j + 3)[1] == '|');
            assert(teil2[j + 1] == '|');
            if j + 1 < 9 {
                assert(teil2[j + 1] == "**Ort:** "@[j + 1]);
            } else {
                assert(teil2[j + 1] == ort[j + 1 - 9]);
            }
        }
    }
    crate::text::lemma_vorkommen_eindeutig(teil2, " | "@, teil2.len() as int);
    assert(teile_spec(t, " | "@) == seq![teil1, teil2]) by {
        assert(teile_spec(t, " | "@) == seq![teil1] + teile_spec(teil2, " | "@)) by {
            assert(t.subrange(p + " | "@.len(), t.len() as int) == teil2);
        }
        assert(teile_spec(teil2, " | "@) == seq![teil2]);
        assert(seq![teil1] + seq![teil2] =~= seq![teil1, teil2]);
    }
    let nach1 = meta_teil_anwenden(d, teil1);
    assert(nach1.datum_text == datum && nach1.ort == d.ort) by {
        assert(teil1[0] == '*');
        assert(teil1[teil1.len() - 1] == datum[dl - 1]);
        crate::text::lemma_trim_fest(teil1);
        assert(ist_praefix("**Datum:**"@, teil1)) by {
            assert(teil1.subrange(0, 10) =~= "**Datum:**"@);
        }
        let uebrig = seq![' '] + datum;
        assert(streife_praefixe(teil1, "**Datum:**"@) == uebrig) by {
            assert(streife_praefixe(teil1, "**Datum:**"@) == streife_praefixe(
                teil1.skip(10),
                "**Datum:**"@,
            ));
            assert(teil1.skip(10) =~= uebrig);
            assert(!ist_praefix("**Datum:**"@, uebrig)) by {
                if ist_praefix("**Datum:**"@, uebrig) {
                    assert(uebrig.subrange(0, 10)[0] == ' ');
                }
            }
            assert(streife_praefixe(uebrig, "**Datum:**"@) == uebrig);
        }
        assert(trim_spec(uebrig) == datum) by {
            assert(uebrig[0] == ' ');
            assert(crate::text::trim_links_spec(uebrig) == crate::text::trim_links_spec(
                uebrig.drop_first(),
            ));
            assert(uebrig.drop_first() =~= datum);
            assert(crate::text::trim_links_spec(datum) == datum);
            assert(crate::text::trim_rechts_spec(datum) == datum);
        }
    }
    let nach2 = meta_teil_anwenden(nach1, teil2);
    assert(nach2.datum_text == datum && nach2.ort == ort) by {
        assert(teil2[0] == '*');
        assert(teil2[teil2.len() - 1] == ort[ort.len() - 1]);
        crate::text::lemma_trim_fest(teil2);
        assert(!ist_praefix("**Datum:**"@, teil2)) by {
            if ist_praefix("**Datum:**"@, teil2) {
                assert(teil2.subrange(0, 10)[2] == 'O');
            }
        }
        assert(ist_praefix("**Ort:**"@, teil2)) by {
            assert(teil2.subrange(0, 8) =~= "**Ort:**"@);
        }
        let uebrig = seq![' '] + ort;
        assert(streife_praefixe(teil2, "**Ort:**"@) == uebrig) by {
            assert(streife_praefixe(teil2, "**Ort:**"@) == streife_praefixe(
                teil2.skip(8),
                "**Ort:**"@,
            ));
            assert(teil2.skip(8) =~= uebrig);
            assert(!ist_praefix("**Ort:**"@, uebrig)) by {
                if ist_praefix("**Ort:**"@, uebrig) {
                    assert(uebrig.subrange(0, 8)[0] == ' ');
                }
            }
            assert(streife_praefixe(uebrig, "**Ort:**"@) == uebrig);
        }
        assert(trim_spec(uebrig) == ort) by {
            assert(uebrig[0] == ' ');
            assert(crate::text::trim_links_spec(uebrig) == crate::text::trim_links_spec(
                uebrig.drop_first(),
            ));
            assert(uebrig.drop_first() =~= ort);
            assert(crate::text::trim_links_spec(ort) == ort);
            assert(crate::text::trim_rechts_spec(ort) == ort);
        }
    }
    assert(meta_falten(d, seq![teil1, teil2]) == nach2) by {
        let beide = seq![teil1, teil2];
        assert(beide[0] == teil1);
        assert(beide.drop_first() =~= seq![teil2]);
        assert(meta_falten(d, beide) == meta_falten(nach1, seq![teil2]));
        assert(seq![teil2][0] == teil2);
        assert(seq![teil2].drop_first() =~= Seq::<Seq<char>>::empty());
        assert(meta_falten(nach1, seq![teil2]) == meta_falten(
            nach2,
            Seq::<Seq<char>>::empty(),
        ));
    }
}

} // verus!
