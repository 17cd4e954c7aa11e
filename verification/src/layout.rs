//! The layout model for the paginated export: inline-link extraction
//! with running footnote numbers, soft-wrapping of long URLs, the footer
//! text, and the two-pass page-counting protocol.

use vstd::prelude::*;

use crate::codec::person_zeile_spec;
use crate::modell::{Art, EintragAnsicht, Person, PersonAnsicht, ProtokollAnsicht, Sicherheit};
use crate::text::{
    erstes_vorkommen, finde_ab, kommt_vor_bei, lemma_erstes_vorkommen, lemma_vorkommen_eindeutig,
    teilbereich, teile, teile_spec, text_von, verbinden, verbinden_spec, zahl_spec, zahl_text,
    zeichen_von,
};
use vstd::string::StringExecFns;

verus! {

/// Index of the closing bracket of a link starting at the head of `s`,
/// taken as the first `]` after the opening bracket.
pub open spec fn link_ende_eckig(s: Seq<char>) -> int {
    1 + erstes_vorkommen(s.skip(1), "]"@)
}

/// Index of the closing parenthesis, taken as the first `)` after the
/// opening parenthesis that follows the bracket pair.
pub open spec fn link_ende_rund(s: Seq<char>) -> int {
    let c = link_ende_eckig(s);
    c + 2 + erstes_vorkommen(s.skip(c + 2), ")"@)
}

/// Does a complete link `[label](url)` with non-empty label and url
/// stand at the head of `s`?
pub open spec fn link_passt(s: Seq<char>) -> bool {
    let c = link_ende_eckig(s);
    &&& s.len() > 0
    &&& s[0] == '['
    &&& erstes_vorkommen(s.skip(1), "]"@) < s.skip(1).len()
    &&& c > 1
    &&& c + 1 < s.len()
    &&& s[c + 1] == '('
    &&& erstes_vorkommen(s.skip(c + 2), ")"@) < s.skip(c + 2).len()
    &&& erstes_vorkommen(s.skip(c + 2), ")"@) > 0
}

/// The label of the link at the head of `s`.
pub open spec fn link_label(s: Seq<char>) -> Seq<char> {
    s.subrange(1, link_ende_eckig(s))
}

/// The target of the link at the head of `s`.
pub open spec fn link_url(s: Seq<char>) -> Seq<char> {
    s.subrange(link_ende_eckig(s) + 2, link_ende_rund(s))
}

/// The replaced text and the footnote triples of a left-to-right scan of
/// `s`, numbering found links from `nummer` on. A recognised link
/// `[label](url)` becomes `label [n]`; a bracket that opens no link
/// passes through literally.
pub open spec fn links_ab(s: Seq<char>, nummer: int) -> (Seq<char>, Seq<
    (int, Seq<char>, Seq<char>),
>)
    decreases s.len(),
    via links_ab_abnahme
{
    if s.len() == 0 {
        (Seq::empty(), Seq::empty())
    } else if link_passt(s) {
        let danach = links_ab(s.skip(link_ende_rund(s) + 1), nummer + 1);
        (
            link_label(s) + " ["@ + zahl_spec(nummer) + "]"@ + danach.0,
            seq![(nummer, link_label(s), link_url(s))] + danach.1,
        )
    } else {
        let danach = links_ab(s.drop_first(), nummer);
        (seq![s[0]] + danach.0, danach.1)
    }
}

#[via_fn]
proof fn links_ab_abnahme(s: Seq<char>, nummer: int) {
    if s.len() > 0 && link_passt(s) {
        reveal_strlit("]");
        reveal_strlit(")");
        lemma_erstes_vorkommen(s.skip(1), "]"@);
        lemma_erstes_vorkommen(s.skip(link_ende_eckig(s) + 2), ")"@);
    }
}

/// The footnote triple of a found link as the executable scan returns it.
pub open spec fn link_ansicht(l: (usize, String, String)) -> (int, Seq<char>, Seq<char>) {
    (l.0 as int, l.1@, l.2@)
}

/// Replaces Markdown links `[label](url)` by `label [n]` and returns the
/// ordered footnote triples, numbering from `start_num` on so that the
/// count runs across all note lines of one export.
#[verifier::rlimit(100)]
pub fn markdown_links_extrahieren(text: &str, start_num: usize) -> (r: (String, Vec<
    (usize, String, String),
>))
    requires
        start_num + text@.len() <= usize::MAX,
    ensures
        ({
            let erg = links_ab(text@, start_num as int);
            r.0@ == erg.0 && r.1@.map_values(|l: (usize, String, String)| link_ansicht(l)) == erg.1
        }),
{
    let z = zeichen_von(text);
    let klammer_zu = zeichen_von("]");
    let klammer_rund = zeichen_von(")");
    let mut erg: Vec<char> = Vec::new();
    let mut links: Vec<(usize, String, String)> = Vec::new();
    let mut num: usize = start_num;
    let mut pos: usize = 0;
    proof {
        reveal_strlit("]");
        reveal_strlit(")");
        assert(z@.subrange(0, z@.len() as int) =~= z@);
        assert(links@.map_values(|l: (usize, String, String)| link_ansicht(l))
            =~= Seq::<(int, Seq<char>, Seq<char>)>::empty());
        assert(Seq::<char>::empty() + links_ab(z@, start_num as int).0 =~= links_ab(
            z@,
            start_num as int,
        ).0);
        assert(Seq::<(int, Seq<char>, Seq<char>)>::empty() + links_ab(z@, start_num as int).1
            =~= links_ab(z@, start_num as int).1);
    }
    while pos < z.len()
        invariant
            pos <= z@.len(),
            z@ == text@,
            num >= start_num,
            num - start_num <= pos,
            klammer_zu@ == "]"@,
            klammer_rund@ == ")"@,
            klammer_zu@.len() == 1,
            klammer_rund@.len() == 1,
            start_num + text@.len() <= usize::MAX,
            links_ab(z@, start_num as int).0 == erg@ + links_ab(
                z@.subrange(pos as int, z@.len() as int),
                num as int,
            ).0,
            links_ab(z@, start_num as int).1 == links@.map_values(
                |l: (usize, String, String)| link_ansicht(l),
            ) + links_ab(z@.subrange(pos as int, z@.len() as int), num as int).1,
        decreases z@.len() - pos,
    {
        let ghost rest = z@.subrange(pos as int, z@.len() as int);
        let mut gefunden = false;
        if z[pos] == '[' {
            proof {
                lemma_erstes_vorkommen(rest.skip(1), "]"@);
            }
            match finde_ab(&z, &klammer_zu, pos + 1) {
                Some(schliess) => {
                    proof {
                        assert forall|j: int| 0 <= j < schliess - pos - 1 implies !kommt_vor_bei(
                            rest.skip(1),
                            "]"@,
                            j,
                        ) by {
                            assert(!kommt_vor_bei(z@, klammer_zu@, pos + 1 + j));
                            if kommt_vor_bei(rest.skip(1), "]"@, j) {
                                assert(rest.skip(1).subrange(j, j + 1) =~= z@.subrange(
                                    pos + 1 + j,
                                    pos + 1 + j + 1,
                                ));
                            }
                        }
                        assert(rest.skip(1).subrange(
                            schliess - pos - 1,
                            schliess - pos - 1 + 1,
                        ) =~= z@.subrange(schliess as int, schliess + 1));
                        lemma_vorkommen_eindeutig(rest.skip(1), "]"@, schliess - pos - 1);
                        assert(link_ende_eckig(rest) == schliess - pos);
                    }
                    if schliess > pos + 1 && schliess + 1 < z.len() && z[schliess + 1] == '(' {
                        proof {
                            assert(rest[schliess - pos + 1] == '(');
                            lemma_erstes_vorkommen(rest.skip(schliess - pos + 2), ")"@);
                        }
                        match finde_ab(&z, &klammer_rund, schliess + 2) {
                            Some(rund) => {
                                proof {
                                    assert forall|j: int|
                                        #![trigger kommt_vor_bei(rest.skip(schliess - pos + 2), ")"@, j)]
                                        0 <= j < rund - schliess - 2 implies !kommt_vor_bei(
                                        rest.skip(schliess - pos + 2),
                                        ")"@,
                                        j,
                                    ) by {
                                        assert(!kommt_vor_bei(z@, klammer_rund@, schliess + 2 + j));
                                        if kommt_vor_bei(rest.skip(schliess - pos + 2), ")"@, j) {
                                            assert(rest.skip(schliess - pos + 2).subrange(
                                                j,
                                                j + 1,
                                            ) =~= z@.subrange(
                                                schliess + 2 + j,
                                                schliess + 2 + j + 1,
                                            ));
                                        }
                                    }
                                    assert(rest.skip(schliess - pos + 2).subrange(
                                        rund - schliess - 2,
                                        rund - schliess - 2 + 1,
                                    ) =~= z@.subrange(rund as int, rund + 1));
                                    lemma_vorkommen_eindeutig(
                                        rest.skip(schliess - pos + 2),
                                        ")"@,
                                        rund - schliess - 2,
                                    );
                                    assert(link_ende_rund(rest) == rund - pos);
                                }
                                if rund > schliess + 2 {
                                    proof {
                                        assert(link_passt(rest));
                                    }
                                    let label = teilbereich(&z, pos + 1, schliess);
                                    let url = teilbereich(&z, schliess + 2, rund);
                                    proof {
                                        assert(label@ =~= link_label(rest));
                                        assert(url@ =~= link_url(rest));
                                    }
                                    let ghost erg_alt = erg@;
                                    let mut k: usize = 0;
                                    while k < label.len()
                                        invariant
                                            k <= label@.len(),
                                            erg@ == erg_alt + label@.subrange(0, k as int),
                                        decreases label@.len() - k,
                                    {
                                        erg.push(label[k]);
                                        assert(label@.subrange(0, k + 1) =~= label@.subrange(
                                            0,
                                            k as int,
                                        ).push(label@[k as int]));
                                        k = k + 1;
                                    }
                                    assert(label@.subrange(0, label@.len() as int) =~= label@);
                                    erg.push(' ');
                                    erg.push('[');
                                    proof {
                                        reveal_strlit(" [");
                                        assert(erg@ =~= erg_alt + label@ + " ["@);
                                    }
                                    let ziffern = zahl_text(num);
                                    let ghost erg_mitte = erg@;
                                    let mut k2: usize = 0;
                                    while k2 < ziffern.len()
                                        invariant
                                            k2 <= ziffern@.len(),
                                            erg@ == erg_mitte + ziffern@.subrange(0, k2 as int),
                                        decreases ziffern@.len() - k2,
                                    {
                                        erg.push(ziffern[k2]);
                                        assert(ziffern@.subrange(0, k2 + 1) =~= ziffern@.subrange(
                                            0,
                                            k2 as int,
                                        ).push(ziffern@[k2 as int]));
                                        k2 = k2 + 1;
                                    }
                                    assert(ziffern@.subrange(0, ziffern@.len() as int)
                                        =~= ziffern@);
                                    erg.push(']');
                                    proof {
                                        reveal_strlit("]");
                                        assert(erg@ =~= ((erg_alt + link_label(rest)) + " ["@
                                            + zahl_spec(num as int)) + "]"@);
                                    }
                                    let ghost links_alt = links@.map_values(
                                        |l: (usize, String, String)| link_ansicht(l),
                                    );
                                    links.push((num, text_von(&label), text_von(&url)));
                                    proof {
                                        assert(links@.map_values(
                                            |l: (usize, String, String)| link_ansicht(l),
                                        ) =~= links_alt.push(
                                            (num as int, link_label(rest), link_url(rest)),
                                        ));
                                    }
                                    num = num + 1;
                                    pos = rund + 1;
                                    gefunden = true;
                                    proof {
                                        assert(rest.skip(link_ende_rund(rest) + 1) =~= z@.subrange(
                                            pos as int,
                                            z@.len() as int,
                                        ));
                                        assert(links_ab(rest, (num - 1) as int).0 == (link_label(
                                            rest,
                                        ) + " ["@ + zahl_spec((num - 1) as int) + "]"@) + links_ab(
                                            z@.subrange(pos as int, z@.len() as int),
                                            num as int,
                                        ).0);
                                        assert(erg_alt + (link_label(rest) + " ["@ + zahl_spec(
                                            (num - 1) as int,
                                        ) + "]"@ + links_ab(
                                            z@.subrange(pos as int, z@.len() as int),
                                            num as int,
                                        ).0) =~= erg@ + links_ab(
                                            z@.subrange(pos as int, z@.len() as int),
                                            num as int,
                                        ).0);
                                        assert(links_alt + (seq![
                                            ((num - 1) as int, link_label(rest), link_url(rest)),
                                        ] + links_ab(
                                            z@.subrange(pos as int, z@.len() as int),
                                            num as int,
                                        ).1) =~= links@.map_values(
                                            |l: (usize, String, String)| link_ansicht(l),
                                        ) + links_ab(
                                            z@.subrange(pos as int, z@.len() as int),
                                            num as int,
                                        ).1);
                                    }
                                }
                            },
                            None => {
                                proof {
                                    assert forall|j: int|
                                        #![trigger kommt_vor_bei(rest.skip(schliess - pos + 2), ")"@, j)]
                                        0 <= j implies !kommt_vor_bei(
                                        rest.skip(schliess - pos + 2),
                                        ")"@,
                                        j,
                                    ) by {
                                        if kommt_vor_bei(rest.skip(schliess - pos + 2), ")"@, j) {
                                            assert(rest.skip(schliess - pos + 2).subrange(
                                                j,
                                                j + 1,
                                            ) =~= z@.subrange(
                                                schliess + 2 + j,
                                                schliess + 2 + j + 1,
                                            ));
                                            assert(kommt_vor_bei(z@, klammer_rund@, schliess + 2 + j));
                                        }
                                    }
                                    lemma_vorkommen_eindeutig(
                                        rest.skip(schliess - pos + 2),
                                        ")"@,
                                        rest.skip(schliess - pos + 2).len() as int,
                                    );
                                }
                            },
                        }
                    }
                },
                None => {
                    proof {
                        assert forall|j: int| 0 <= j implies !kommt_vor_bei(
                            rest.skip(1),
                            "]"@,
                            j,
                        ) by {
                            if kommt_vor_bei(rest.skip(1), "]"@, j) {
                                assert(rest.skip(1).subrange(j, j + 1) =~= z@.subrange(
                                    pos + 1 + j,
                                    pos + 1 + j + 1,
                                ));
                                assert(kommt_vor_bei(z@, klammer_zu@, pos + 1 + j));
                            }
                        }
                        lemma_vorkommen_eindeutig(rest.skip(1), "]"@, rest.skip(1).len() as int);
                    }
                },
            }
        }
        if !gefunden {
            proof {
                assert(!link_passt(rest));
                assert(rest.drop_first() =~= z@.subrange(pos + 1, z@.len() as int));
                assert(rest[0] == z@[pos as int]);
                assert(erg@ + (seq![rest[0]] + links_ab(
                    z@.subrange(pos + 1, z@.len() as int),
                    num as int,
                ).0) =~= erg@.push(z@[pos as int]) + links_ab(
                    z@.subrange(pos + 1, z@.len() as int),
                    num as int,
                ).0);
            }
            erg.push(z[pos]);
            pos = pos + 1;
        }
    }
    proof {
        assert(z@.subrange(z@.len() as int, z@.len() as int) =~= Seq::<char>::empty());
        assert(erg@ + Seq::<char>::empty() =~= erg@);
        assert(links@.map_values(|l: (usize, String, String)| link_ansicht(l))
            + Seq::<(int, Seq<char>, Seq<char>)>::empty() =~= links@.map_values(
            |l: (usize, String, String)| link_ansicht(l),
        ));
    }
    (text_von(&erg), links)
}


/// Soft-wrapping of a URL for the footnote list: characters accumulate
/// into a chunk, and a chunk is closed right after a `/` once it holds
/// more than a hundred characters.
pub open spec fn url_zeilen_ab(s: Seq<char>, akt: Seq<char>) -> Seq<Seq<char>>
    decreases s.len(),
{
    if s.len() == 0 {
        if akt.len() == 0 {
            Seq::empty()
        } else {
            seq![akt]
        }
    } else {
        let akt2 = akt.push(s[0]);
        if s[0] == '/' && akt2.len() > 100 {
            seq![akt2] + url_zeilen_ab(s.drop_first(), Seq::empty())
        } else {
            url_zeilen_ab(s.drop_first(), akt2)
        }
    }
}

/// The chunks a URL is wrapped into.
pub open spec fn url_zeilen_spec(s: Seq<char>) -> Seq<Seq<char>> {
    url_zeilen_ab(s, Seq::empty())
}

/// Wraps a URL at `/` boundaries so that the rendered footnote can break
/// long targets across lines.
pub fn url_umbrechen(url: &str) -> (r: Vec<String>)
    ensures
        r.deep_view() == url_zeilen_spec(url@),
{
    let z = zeichen_von(url);
    let mut r: Vec<String> = Vec::new();
    let mut akt: Vec<char> = Vec::new();
    let mut i: usize = 0;
    proof {
        assert(z@.subrange(0, z@.len() as int) =~= z@);
        assert(r.deep_view() =~= Seq::<Seq<char>>::empty());
        assert(Seq::<Seq<char>>::empty() + url_zeilen_spec(url@) =~= url_zeilen_spec(url@));
    }
    while i < z.len()
        invariant
            i <= z@.len(),
            z@ == url@,
            akt@.len() <= i,
            url_zeilen_spec(url@) == r.deep_view() + url_zeilen_ab(
                z@.subrange(i as int, z@.len() as int),
                akt@,
            ),
        decreases z@.len() - i,
    {
        let ghost rest = z@.subrange(i as int, z@.len() as int);
        proof {
            assert(rest.drop_first() =~= z@.subrange(i + 1, z@.len() as int));
            assert(rest[0] == z@[i as int]);
        }
        let c = z[i];
        akt.push(c);
        if c == '/' && akt.len() > 100 {
            let ghost r_alt = r.deep_view();
            let ghost voll = akt@;
            r.push(text_von(&akt));
            akt = Vec::new();
            proof {
                assert(r.deep_view() =~~= r_alt.push(voll));
                assert(akt@ =~= Seq::<char>::empty());
                assert(r_alt + (seq![voll] + url_zeilen_ab(
                    z@.subrange(i + 1, z@.len() as int),
                    Seq::empty(),
                )) =~= r.deep_view() + url_zeilen_ab(
                    z@.subrange(i + 1, z@.len() as int),
                    Seq::empty(),
                ));
            }
        }
        i = i + 1;
    }
    proof {
        assert(z@.subrange(z@.len() as int, z@.len() as int) =~= Seq::<char>::empty());
    }
    if akt.len() > 0 {
        let ghost r_alt = r.deep_view();
        r.push(text_von(&akt));
        proof {
            assert(r.deep_view() =~~= r_alt.push(akt@));
            assert(r_alt + seq![akt@] =~= r.deep_view());
        }
    } else {
        proof {
            assert(r.deep_view() + Seq::<Seq<char>>::empty() =~= r.deep_view());
        }
    }
    r
}

/// The footer text of one page: `Seite X von Y`.
pub fn fusszeilen_text(seite: usize, gesamt: usize) -> (r: String)
    ensures
        r@ == "Seite "@ + zahl_spec(seite as int) + " von "@ + zahl_spec(gesamt as int),
{
    let mut r = String::new();
    r.append("Seite ");
    let s1 = zahl_text(seite);
    let t1 = text_von(&s1);
    r.append(t1.as_str());
    r.append(" von ");
    let s2 = zahl_text(gesamt);
    let t2 = text_von(&s2);
    r.append(t2.as_str());
    proof {
        assert(r@ =~= "Seite "@ + zahl_spec(seite as int) + " von "@ + zahl_spec(gesamt as int));
    }
    r
}

/// Greedy pagination over block heights: a block goes onto the current
/// page when it fits into the remaining space, otherwise it opens a new
/// page; a block taller than a whole page fills one page.
pub open spec fn seiten_ab(hoehen: Seq<usize>, kap: int, frei: int, seiten: int) -> int
    decreases hoehen.len(),
{
    if hoehen.len() == 0 {
        seiten
    } else {
        let h = hoehen[0] as int;
        if h <= frei {
            seiten_ab(hoehen.drop_first(), kap, frei - h, seiten)
        } else {
            seiten_ab(hoehen.drop_first(), kap, if h <= kap {
                kap - h
            } else {
                0
            }, seiten + 1)
        }
    }
}

/// The number of pages that a block sequence fills on pages of the given
/// capacity; an empty document still has one page.
pub open spec fn seiten_anzahl_spec(hoehen: Seq<usize>, kap: int) -> int {
    seiten_ab(hoehen, kap, kap, 1)
}

proof fn lemma_seiten_ab_schranke(hoehen: Seq<usize>, kap: int, frei: int, seiten: int)
    requires
        seiten >= 1,
    ensures
        seiten <= seiten_ab(hoehen, kap, frei, seiten) <= seiten + hoehen.len(),
    decreases hoehen.len(),
{
    if hoehen.len() > 0 {
        let h = hoehen[0] as int;
        if h <= frei {
            lemma_seiten_ab_schranke(hoehen.drop_first(), kap, frei - h, seiten);
        } else {
            lemma_seiten_ab_schranke(hoehen.drop_first(), kap, if h <= kap {
                kap - h
            } else {
                0
            }, seiten + 1);
        }
    }
}

/// One rendering pass over the block heights: lays the blocks onto pages
/// and returns the page count. The footer total displayed during the
/// pass is not an input to pagination, which is what makes the two-pass
/// protocol sound.
pub fn durchlauf(hoehen: &Vec<usize>, kapazitaet: usize, fusszeile_gesamt: usize) -> (seiten:
    usize)
    requires
        kapazitaet > 0,
        hoehen@.len() < usize::MAX,
    ensures
        seiten as int == seiten_anzahl_spec(hoehen@, kapazitaet as int),
{
    proof {
        lemma_seiten_ab_schranke(hoehen@, kapazitaet as int, kapazitaet as int, 1);
    }
    let mut seiten: usize = 1;
    let mut frei: usize = kapazitaet;
    let mut i: usize = 0;
    proof {
        assert(hoehen@.subrange(0, hoehen@.len() as int) =~= hoehen@);
    }
    while i < hoehen.len()
        invariant
            i <= hoehen@.len(),
            kapazitaet > 0,
            hoehen@.len() < usize::MAX,
            frei <= kapazitaet,
            1 <= seiten,
            seiten + (hoehen@.len() - i) <= usize::MAX,
            seiten_anzahl_spec(hoehen@, kapazitaet as int) == seiten_ab(
                hoehen@.subrange(i as int, hoehen@.len() as int),
                kapazitaet as int,
                frei as int,
                seiten as int,
            ),
        decreases hoehen@.len() - i,
    {
        let ghost rest = hoehen@.subrange(i as int, hoehen@.len() as int);
        proof {
            assert(rest.drop_first() =~= hoehen@.subrange(i + 1, hoehen@.len() as int));
            assert(rest[0] == hoehen@[i as int]);
            lemma_seiten_ab_schranke(
                hoehen@.subrange(i as int, hoehen@.len() as int),
                kapazitaet as int,
                frei as int,
                seiten as int,
            );
        }
        let h = hoehen[i];
        if h <= frei {
            frei = frei - h;
        } else {
            seiten = seiten + 1;
            if h <= kapazitaet {
                frei = kapazitaet - h;
            } else {
                frei = 0;
            }
        }
        i = i + 1;
    }
    proof {
        assert(hoehen@.subrange(hoehen@.len() as int, hoehen@.len() as int)
            =~= Seq::<usize>::empty());
    }
    seiten
}

/// The fixed point of the two-pass protocol: pagination reads only the
/// block heights, never the footer total, so running the final pass with
/// the measurement pass's count reproduces that count exactly.
pub proof fn lemma_zwei_durchlaeufe(hoehen: Seq<usize>, kap: int, erste_zaehlung: int)
    requires
        erste_zaehlung == seiten_anzahl_spec(hoehen, kap),
    ensures
        seiten_anzahl_spec(hoehen, kap) == erste_zaehlung,
{
}


/// Total number of characters over a sequence of lines.
pub open spec fn gesamtlaenge(zeilen: Seq<Seq<char>>) -> int
    decreases zeilen.len(),
{
    if zeilen.len() == 0 {
        0
    } else {
        zeilen[0].len() + gesamtlaenge(zeilen.drop_first())
    }
}

proof fn lemma_gesamtlaenge_anhaengen(zeilen: Seq<Seq<char>>, z: Seq<char>)
    ensures
        gesamtlaenge(zeilen.push(z)) == gesamtlaenge(zeilen) + z.len(),
    decreases zeilen.len(),
{
    let erweitert = zeilen.push(z);
    if zeilen.len() == 0 {
        assert(erweitert[0] == z);
        assert(erweitert.drop_first() =~= Seq::<Seq<char>>::empty());
        assert(gesamtlaenge(erweitert) == z.len() + gesamtlaenge(erweitert.drop_first()));
        assert(gesamtlaenge(Seq::<Seq<char>>::empty()) == 0);
    } else {
        assert(erweitert[0] == zeilen[0]);
        assert(erweitert.drop_first() =~= zeilen.drop_first().push(z));
        lemma_gesamtlaenge_anhaengen(zeilen.drop_first(), z);
        assert(gesamtlaenge(erweitert) == zeilen[0].len() + gesamtlaenge(erweitert.drop_first()));
    }
}

proof fn lemma_gesamtlaenge_praefix(zeilen: Seq<Seq<char>>, j: int)
    requires
        0 <= j <= zeilen.len(),
    ensures
        gesamtlaenge(zeilen.subrange(0, j)) + gesamtlaenge(
            zeilen.subrange(j, zeilen.len() as int),
        ) == gesamtlaenge(zeilen),
        gesamtlaenge(zeilen.subrange(j, zeilen.len() as int)) >= 0,
        gesamtlaenge(zeilen.subrange(0, j)) >= 0,
    decreases zeilen.len() - j,
{
    if j == zeilen.len() {
        assert(zeilen.subrange(0, j) =~= zeilen);
        assert(zeilen.subrange(j, zeilen.len() as int) =~= Seq::<Seq<char>>::empty());
        lemma_gesamtlaenge_nichtnegativ(zeilen);
    } else {
        lemma_gesamtlaenge_praefix(zeilen, j + 1);
        lemma_gesamtlaenge_nichtnegativ(zeilen.subrange(0, j));
        lemma_gesamtlaenge_anhaengen(zeilen.subrange(0, j), zeilen[j]);
        assert(zeilen.subrange(0, j + 1) =~= zeilen.subrange(0, j).push(zeilen[j]));
        let rest = zeilen.subrange(j, zeilen.len() as int);
        assert(rest[0] == zeilen[j]);
        assert(rest.drop_first() =~= zeilen.subrange(j + 1, zeilen.len() as int));
    }
}

proof fn lemma_gesamtlaenge_nichtnegativ(zeilen: Seq<Seq<char>>)
    ensures
        gesamtlaenge(zeilen) >= 0,
    decreases zeilen.len(),
{
    if zeilen.len() > 0 {
        lemma_gesamtlaenge_nichtnegativ(zeilen.drop_first());
    }
}

/// Splitting never yields more characters than the text held.
proof fn lemma_teile_gesamtlaenge(s: Seq<char>, sep: Seq<char>)
    requires
        sep.len() > 0,
    ensures
        gesamtlaenge(teile_spec(s, sep)) <= s.len(),
    decreases s.len(),
{
    lemma_erstes_vorkommen(s, sep);
    let e = erstes_vorkommen(s, sep);
    if e == s.len() {
        assert(teile_spec(s, sep) == seq![s]);
        assert(gesamtlaenge(seq![s]) == s.len() + gesamtlaenge(seq![s].drop_first()));
        assert(seq![s].drop_first() =~= Seq::<Seq<char>>::empty());
    } else {
        let rest = s.subrange(e + sep.len(), s.len() as int);
        lemma_teile_gesamtlaenge(rest, sep);
        let ganz = teile_spec(s, sep);
        assert(ganz == seq![s.subrange(0, e)] + teile_spec(rest, sep));
        assert(ganz[0] == s.subrange(0, e));
        assert(ganz.drop_first() =~= teile_spec(rest, sep));
        assert(gesamtlaenge(ganz) == e + gesamtlaenge(teile_spec(rest, sep)));
    }
}

/// A line yields at most as many footnotes as it has characters.
proof fn lemma_links_anzahl(s: Seq<char>, nummer: int)
    ensures
        links_ab(s, nummer).1.len() <= s.len(),
    decreases s.len(),
{
    if s.len() > 0 {
        if link_passt(s) {
            reveal_strlit("]");
            reveal_strlit(")");
            lemma_erstes_vorkommen(s.skip(1), "]"@);
            lemma_erstes_vorkommen(s.skip(link_ende_eckig(s) + 2), ")"@);
            lemma_links_anzahl(s.skip(link_ende_rund(s) + 1), nummer + 1);
        } else {
            lemma_links_anzahl(s.drop_first(), nummer);
        }
    }
}

/// Footnote replacement over the lines of one note, numbering continued
/// from line to line.
pub open spec fn zeilen_links_ab(zeilen: Seq<Seq<char>>, nummer: int) -> (Seq<Seq<char>>, Seq<
    (int, Seq<char>, Seq<char>),
>)
    decreases zeilen.len(),
{
    if zeilen.len() == 0 {
        (Seq::empty(), Seq::empty())
    } else {
        let kopf = links_ab(zeilen[0], nummer);
        let rest = zeilen_links_ab(zeilen.drop_first(), nummer + kopf.1.len());
        (seq![kopf.0] + rest.0, kopf.1 + rest.1)
    }
}

/// Footnote replacement over a whole note: the note is split at line
/// breaks, each line is scanned, and the replaced lines are joined
/// again.
pub open spec fn notiz_links_spec(notiz: Seq<char>, nummer: int) -> (Seq<char>, Seq<
    (int, Seq<char>, Seq<char>),
>) {
    let zl = zeilen_links_ab(teile_spec(notiz, "\n"@), nummer);
    (verbinden_spec(zl.0, "\n"@), zl.1)
}

/// Replaces the links of one note, line by line with a running footnote
/// number, and returns the joined text and the found footnotes.
fn notiz_ersetzen(notiz: &str, start_num: usize) -> (r: (String, Vec<(usize, String, String)>))
    requires
        start_num + notiz@.len() <= usize::MAX,
    ensures
        ({
            let erg = notiz_links_spec(notiz@, start_num as int);
            r.0@ == erg.0 && r.1@.map_values(|l: (usize, String, String)| link_ansicht(l)) == erg.1
        }),
{
    proof {
        reveal_strlit("\n");
    }
    let umbruch = zeichen_von("\n");
    let z = zeichen_von(notiz);
    let zeilen_vec = teile(&z, &umbruch);
    let ghost zls = teile_spec(notiz@, "\n"@);
    let mut ersetzt: Vec<Vec<char>> = Vec::new();
    let mut links: Vec<(usize, String, String)> = Vec::new();
    let mut num: usize = start_num;
    let mut j: usize = 0;
    proof {
        lemma_teile_gesamtlaenge(notiz@, "\n"@);
        lemma_gesamtlaenge_praefix(zls, 0);
        assert(zls.subrange(0, zls.len() as int) =~= zls);
        assert(ersetzt.deep_view() =~= Seq::<Seq<char>>::empty());
        assert(links@.map_values(|l: (usize, String, String)| link_ansicht(l))
            =~= Seq::<(int, Seq<char>, Seq<char>)>::empty());
        assert(Seq::<Seq<char>>::empty() + zeilen_links_ab(zls, start_num as int).0
            =~= zeilen_links_ab(zls, start_num as int).0);
        assert(Seq::<(int, Seq<char>, Seq<char>)>::empty() + zeilen_links_ab(
            zls,
            start_num as int,
        ).1 =~= zeilen_links_ab(zls, start_num as int).1);
    }
    while j < zeilen_vec.len()
        invariant
            j <= zeilen_vec@.len(),
            zeilen_vec.deep_view() == zls,
            zls == teile_spec(notiz@, "\n"@),
            start_num + notiz@.len() <= usize::MAX,
            num - start_num <= gesamtlaenge(zls.subrange(0, j as int)),
            num >= start_num,
            zeilen_links_ab(zls, start_num as int).0 == ersetzt.deep_view() + zeilen_links_ab(
                zls.subrange(j as int, zls.len() as int),
                num as int,
            ).0,
            zeilen_links_ab(zls, start_num as int).1 == links@.map_values(
                |l: (usize, String, String)| link_ansicht(l),
            ) + zeilen_links_ab(zls.subrange(j as int, zls.len() as int), num as int).1,
        decreases zeilen_vec@.len() - j,
    {
        let ghost rest = zls.subrange(j as int, zls.len() as int);
        proof {
            assert(rest[0] == zls[j as int]);
            assert(rest.drop_first() =~= zls.subrange(j + 1, zls.len() as int));
            assert(zeilen_vec.deep_view()[j as int] =~= zeilen_vec@[j as int]@);
            reveal_strlit("\n");
            lemma_teile_gesamtlaenge(notiz@, "\n"@);
            lemma_gesamtlaenge_praefix(zls, j as int);
            lemma_gesamtlaenge_praefix(zls, j + 1);
            lemma_gesamtlaenge_anhaengen(zls.subrange(0, j as int), zls[j as int]);
            assert(zls.subrange(0, j + 1) =~= zls.subrange(0, j as int).push(zls[j as int]));
            lemma_links_anzahl(zls[j as int], num as int);
        }
        let zeile_text = text_von(&zeilen_vec[j]);
        let erg = markdown_links_extrahieren(zeile_text.as_str(), num);
        let ghost ersetzt_alt = ersetzt.deep_view();
        let ghost links_alt = links@.map_values(|l: (usize, String, String)| link_ansicht(l));
        ersetzt.push(zeichen_von(erg.0.as_str()));
        let ghost gefundene = erg.1@.map_values(|l: (usize, String, String)| link_ansicht(l));
        let mut k: usize = 0;
        let ghost links_vorher = links@;
        while k < erg.1.len()
            invariant
                k <= erg.1@.len(),
                links@ == links_vorher + erg.1@.subrange(0, k as int),
            decreases erg.1@.len() - k,
        {
            let eintrag = (erg.1[k].0, erg.1[k].1.clone(), erg.1[k].2.clone());
            proof {
                assert(eintrag == erg.1@[k as int]);
                assert(erg.1@.subrange(0, k + 1) =~= erg.1@.subrange(0, k as int).push(
                    erg.1@[k as int],
                ));
            }
            links.push(eintrag);
            k = k + 1;
        }
        proof {
            assert(erg.1@.subrange(0, erg.1@.len() as int) =~= erg.1@);
            assert(links@ =~= links_vorher + erg.1@);
            assert(links@.map_values(|l: (usize, String, String)| link_ansicht(l)) =~= links_alt
                + gefundene);
            assert(ersetzt.deep_view() =~~= ersetzt_alt.push(
                links_ab(zls[j as int], num as int).0,
            ));
            assert(ersetzt_alt + (seq![links_ab(zls[j as int], num as int).0] + zeilen_links_ab(
                zls.subrange(j + 1, zls.len() as int),
                num as int + gefundene.len(),
            ).0) =~= ersetzt.deep_view() + zeilen_links_ab(
                zls.subrange(j + 1, zls.len() as int),
                num as int + gefundene.len(),
            ).0);
            assert(links_alt + (gefundene + zeilen_links_ab(
                zls.subrange(j + 1, zls.len() as int),
                num as int + gefundene.len(),
            ).1) =~= (links_alt + gefundene) + zeilen_links_ab(
                zls.subrange(j + 1, zls.len() as int),
                num as int + gefundene.len(),
            ).1);
            assert(gefundene.len() == links_ab(zls[j as int], num as int).1.len());
            assert(gefundene.len() <= zls[j as int].len());
        }
        num = num + erg.1.len();
        j = j + 1;
    }
    proof {
        assert(zls.subrange(zls.len() as int, zls.len() as int) =~= Seq::<Seq<char>>::empty());
        assert(ersetzt.deep_view() + Seq::<Seq<char>>::empty() =~= ersetzt.deep_view());
        assert(links@.map_values(|l: (usize, String, String)| link_ansicht(l))
            + Seq::<(int, Seq<char>, Seq<char>)>::empty() =~= links@.map_values(
            |l: (usize, String, String)| link_ansicht(l),
        ));
    }
    let verbunden = verbinden(&ersetzt, &umbruch);
    (text_von(&verbunden), links)
}


/// One data row of the rendered entries table. The shading workaround of
/// the export is modelled by `grau` and `max_hoehe`: a shaded background
/// is drawn only up to the cap so that it cannot bleed into the next
/// row, and a white row overpaints with its own fixed cap.
pub struct TabellenBlock {
    /// Label cell.
    pub punkt: String,
    /// Category of the row.
    pub art: Art,
    /// Note text with inline links already replaced by footnote marks.
    pub notiz: String,
    /// Owner cell.
    pub kuemmerer: String,
    /// Due-date cell.
    pub bis: String,
    /// Shaded background for action items.
    pub grau: bool,
    /// Background height cap in tenths of a millimetre.
    pub max_hoehe: usize,
}

/// Mathematical value of a `TabellenBlock`.
#[verifier::ext_equal]
pub ghost struct TabellenBlockAnsicht {
    pub punkt: Seq<char>,
    pub art: Art,
    pub notiz: Seq<char>,
    pub kuemmerer: Seq<char>,
    pub bis: Seq<char>,
    pub grau: bool,
    pub max_hoehe: int,
}

impl View for TabellenBlock {
    type V = TabellenBlockAnsicht;

    open spec fn view(&self) -> TabellenBlockAnsicht {
        TabellenBlockAnsicht {
            punkt: self.punkt@,
            art: self.art,
            notiz: self.notiz@,
            kuemmerer: self.kuemmerer@,
            bis: self.bis@,
            grau: self.grau,
            max_hoehe: self.max_hoehe as int,
        }
    }
}

/// One visual block of the export, in rendering order.
pub enum Block {
    /// A plain paragraph: project name or the date/location line.
    Absatz(String),
    /// The large document title.
    Ueberschrift(String),
    /// A thin separator rule.
    Trennlinie,
    /// One label/value row of the two-column info table.
    Info(String, String),
    /// The heading row of the entries table.
    TabellenKopf,
    /// One data row of the entries table.
    Zeile(TabellenBlock),
    /// The heading of the footnote list.
    LinksUeberschrift,
    /// One footnote: number, label, and the wrapped target lines.
    Link(usize, String, Vec<String>),
}

/// Mathematical value of a `Block`.
#[verifier::ext_equal]
pub ghost enum BlockAnsicht {
    Absatz(Seq<char>),
    Ueberschrift(Seq<char>),
    Trennlinie,
    Info(Seq<char>, Seq<char>),
    TabellenKopf,
    Zeile(TabellenBlockAnsicht),
    LinksUeberschrift,
    Link(int, Seq<char>, Seq<Seq<char>>),
}

impl View for Block {
    type V = BlockAnsicht;

    open spec fn view(&self) -> BlockAnsicht {
        match self {
            Block::Absatz(t) => BlockAnsicht::Absatz(t@),
            Block::Ueberschrift(t) => BlockAnsicht::Ueberschrift(t@),
            Block::Trennlinie => BlockAnsicht::Trennlinie,
            Block::Info(beschriftung, wert) => BlockAnsicht::Info(beschriftung@, wert@),
            Block::TabellenKopf => BlockAnsicht::TabellenKopf,
            Block::Zeile(z) => BlockAnsicht::Zeile(z@),
            Block::LinksUeberschrift => BlockAnsicht::LinksUeberschrift,
            Block::Link(n, beschriftung, ziel) => BlockAnsicht::Link(
                *n as int,
                beschriftung@,
                ziel.deep_view(),
            ),
        }
    }
}

impl DeepView for Block {
    type V = BlockAnsicht;

    open spec fn deep_view(&self) -> BlockAnsicht {
        self.view()
    }
}

/// The kept person lines of a list, one per person with a name.
pub open spec fn namen_liste_spec(liste: Seq<PersonAnsicht>) -> Seq<Seq<char>>
    decreases liste.len(),
{
    if liste.len() == 0 {
        Seq::empty()
    } else {
        (if liste[0].name.len() > 0 {
            seq![person_zeile_spec(liste[0])]
        } else {
            Seq::<Seq<char>>::empty()
        }) + namen_liste_spec(liste.drop_first())
    }
}

proof fn lemma_namen_liste_anhaengen(liste: Seq<PersonAnsicht>, p: PersonAnsicht)
    ensures
        namen_liste_spec(liste.push(p)) == namen_liste_spec(liste) + (if p.name.len() > 0 {
            seq![person_zeile_spec(p)]
        } else {
            Seq::<Seq<char>>::empty()
        }),
    decreases liste.len(),
{
    let erweitert = liste.push(p);
    let teil_p: Seq<Seq<char>> = if p.name.len() > 0 {
        seq![person_zeile_spec(p)]
    } else {
        Seq::<Seq<char>>::empty()
    };
    if liste.len() == 0 {
        assert(erweitert[0] == p);
        assert(erweitert.drop_first() =~= Seq::<PersonAnsicht>::empty());
        assert(namen_liste_spec(erweitert) == teil_p + namen_liste_spec(erweitert.drop_first()));
        assert(teil_p + Seq::<Seq<char>>::empty() =~= teil_p);
        assert(Seq::<Seq<char>>::empty() + teil_p =~= teil_p);
    } else {
        let teil_0: Seq<Seq<char>> = if liste[0].name.len() > 0 {
            seq![person_zeile_spec(liste[0])]
        } else {
            Seq::<Seq<char>>::empty()
        };
        assert(erweitert[0] == liste[0]);
        assert(erweitert.drop_first() =~= liste.drop_first().push(p));
        lemma_namen_liste_anhaengen(liste.drop_first(), p);
        assert(namen_liste_spec(erweitert) == teil_0 + (namen_liste_spec(liste.drop_first())
            + teil_p));
        assert(teil_0 + (namen_liste_spec(liste.drop_first()) + teil_p) =~= (teil_0
            + namen_liste_spec(liste.drop_first())) + teil_p);
    }
}

/// The value cell of a people row: the kept person lines joined by
/// commas.
pub open spec fn namen_wert_spec(liste: Seq<PersonAnsicht>) -> Seq<char> {
    verbinden_spec(namen_liste_spec(liste), ", "@)
}

/// Joins the named persons of a list for the info table.
fn namen_wert(liste: &Vec<Person>) -> (r: String)
    ensures
        r@ == namen_wert_spec(liste.deep_view()),
{
    let mut zeilen_vec: Vec<Vec<char>> = Vec::new();
    let mut i: usize = 0;
    proof {
        assert(zeilen_vec.deep_view() =~= Seq::<Seq<char>>::empty());
        assert(namen_liste_spec(liste.deep_view().subrange(0, 0)) == Seq::<Seq<char>>::empty())
            by {
            assert(liste.deep_view().subrange(0, 0) =~= Seq::<PersonAnsicht>::empty());
        }
    }
    while i < liste.len()
        invariant
            i <= liste@.len(),
            zeilen_vec.deep_view() == namen_liste_spec(liste.deep_view().subrange(0, i as int)),
        decreases liste@.len() - i,
    {
        let ghost bisher = liste.deep_view().subrange(0, i as int);
        let p = &liste[i];
        proof {
            assert(liste.deep_view()[i as int] == liste@[i as int]@);
            lemma_namen_liste_anhaengen(bisher, liste.deep_view()[i as int]);
            assert(liste.deep_view().subrange(0, i + 1) =~= bisher.push(
                liste.deep_view()[i as int],
            ));
        }
        if !p.name.as_str().is_empty() {
            let zeile = crate::codec::person_zeile_text(p);
            let ghost alt = zeilen_vec.deep_view();
            zeilen_vec.push(zeichen_von(zeile.as_str()));
            proof {
                assert(zeilen_vec.deep_view() =~~= alt.push(
                    person_zeile_spec(liste.deep_view()[i as int]),
                ));
                assert(alt + seq![person_zeile_spec(liste.deep_view()[i as int])]
                    =~= zeilen_vec.deep_view());
            }
        } else {
            proof {
                assert(zeilen_vec.deep_view() + Seq::<Seq<char>>::empty()
                    =~= zeilen_vec.deep_view());
            }
        }
        i = i + 1;
    }
    proof {
        assert(liste.deep_view().subrange(0, liste.deep_view().len() as int)
            =~= liste.deep_view());
    }
    let komma = zeichen_von(", ");
    let verbunden = verbinden(&zeilen_vec, &komma);
    text_von(&verbunden)
}

/// One classification cell for the info table.
pub open spec fn klass_kasten_spec(s: Sicherheit, aktiv: Sicherheit) -> Seq<char> {
    (if s == aktiv {
        "[x] "@
    } else {
        "[  ] "@
    }) + s.label_spec()
}

/// The status value cell: both checkboxes side by side.
pub open spec fn status_wert_spec(d: ProtokollAnsicht) -> Seq<char> {
    (if d.ist_entwurf {
        "[x] Entwurf"@
    } else {
        "[  ] Entwurf"@
    }) + "  "@ + (if d.ist_freigegeben {
        "[x] Freigegeben"@
    } else {
        "[  ] Freigegeben"@
    })
}

/// The classification value cell: all four checkboxes side by side.
pub open spec fn klass_wert_spec(aktiv: Sicherheit) -> Seq<char> {
    klass_kasten_spec(Sicherheit::Oeffentlich, aktiv) + "  "@ + klass_kasten_spec(
        Sicherheit::Intern,
        aktiv,
    ) + "  "@ + klass_kasten_spec(Sicherheit::Vertraulich, aktiv) + "  "@ + klass_kasten_spec(
        Sicherheit::StrengVertraulich,
        aktiv,
    )
}

fn klass_kasten(s: Sicherheit, aktiv: Sicherheit) -> (r: String)
    ensures
        r@ == klass_kasten_spec(s, aktiv),
{
    let mut r = String::new();
    if s == aktiv {
        r.append("[x] ");
    } else {
        r.append("[  ] ");
    }
    r.append(s.label());
    proof {
        assert(r@ =~= klass_kasten_spec(s, aktiv));
    }
    r
}

/// The date/location paragraph of the export, omitted when both fields
/// are empty.
pub open spec fn meta_absatz_spec(d: ProtokollAnsicht) -> Seq<char> {
    if d.datum_text.len() > 0 && d.ort.len() > 0 {
        "Datum: "@ + d.datum_text + "  |  "@ + "Ort: "@ + d.ort
    } else if d.datum_text.len() > 0 {
        "Datum: "@ + d.datum_text
    } else if d.ort.len() > 0 {
        "Ort: "@ + d.ort
    } else {
        Seq::empty()
    }
}

/// Sum of the note lengths over all entries; bounds the footnote count.
pub open spec fn notizsumme(es: Seq<EintragAnsicht>) -> int
    decreases es.len(),
{
    if es.len() == 0 {
        0
    } else {
        es[0].notiz.len() + notizsumme(es.drop_first())
    }
}

proof fn lemma_notizsumme_teil(es: Seq<EintragAnsicht>, k: int)
    requires
        0 <= k < es.len(),
    ensures
        notizsumme(es.subrange(0, k)) + es[k].notiz.len() <= notizsumme(es),
        notizsumme(es.subrange(0, k)) >= 0,
        notizsumme(es.subrange(0, k + 1)) == notizsumme(es.subrange(0, k)) + es[k].notiz.len(),
    decreases es.len(),
{
    lemma_notizsumme_anhaengen(es.subrange(0, k), es[k]);
    assert(es.subrange(0, k + 1) =~= es.subrange(0, k).push(es[k]));
    lemma_notizsumme_nichtnegativ(es.subrange(0, k));
    lemma_notizsumme_praefix(es, k + 1);
}

proof fn lemma_notizsumme_nichtnegativ(es: Seq<EintragAnsicht>)
    ensures
        notizsumme(es) >= 0,
    decreases es.len(),
{
    if es.len() > 0 {
        lemma_notizsumme_nichtnegativ(es.drop_first());
    }
}

proof fn lemma_notizsumme_anhaengen(es: Seq<EintragAnsicht>, e: EintragAnsicht)
    ensures
        notizsumme(es.push(e)) == notizsumme(es) + e.notiz.len(),
    decreases es.len(),
{
    let erweitert = es.push(e);
    if es.len() == 0 {
        assert(erweitert[0] == e);
        assert(erweitert.drop_first() =~= Seq::<EintragAnsicht>::empty());
        assert(notizsumme(erweitert) == e.notiz.len() + notizsumme(erweitert.drop_first()));
        assert(notizsumme(Seq::<EintragAnsicht>::empty()) == 0);
    } else {
        assert(erweitert[0] == es[0]);
        assert(erweitert.drop_first() =~= es.drop_first().push(e));
        lemma_notizsumme_anhaengen(es.drop_first(), e);
        assert(notizsumme(erweitert) == es[0].notiz.len() + notizsumme(erweitert.drop_first()));
    }
}

proof fn lemma_notizsumme_praefix(es: Seq<EintragAnsicht>, k: int)
    requires
        0 <= k <= es.len(),
    ensures
        notizsumme(es.subrange(0, k)) <= notizsumme(es),
    decreases es.len() - k,
{
    if k == es.len() {
        assert(es.subrange(0, k) =~= es);
    } else {
        lemma_notizsumme_praefix(es, k + 1);
        lemma_notizsumme_anhaengen(es.subrange(0, k), es[k]);
        assert(es.subrange(0, k + 1) =~= es.subrange(0, k).push(es[k]));
    }
}

/// The number of parts a split yields is at most one more than the
/// length of the text.
proof fn lemma_teile_anzahl(s: Seq<char>, sep: Seq<char>)
    requires
        sep.len() > 0,
    ensures
        1 <= teile_spec(s, sep).len() <= s.len() + 1,
    decreases s.len(),
{
    lemma_erstes_vorkommen(s, sep);
    let e = erstes_vorkommen(s, sep);
    if e < s.len() {
        lemma_teile_anzahl(s.subrange(e + sep.len(), s.len() as int), sep);
    }
}

/// The table rows and footnotes of the non-empty entries, numbering the
/// footnotes continuously from `nummer` on.
pub open spec fn eintrag_bloecke_spec(es: Seq<EintragAnsicht>, nummer: int) -> (Seq<BlockAnsicht>,
    Seq<(int, Seq<char>, Seq<char>)>)
    decreases es.len(),
{
    if es.len() == 0 {
        (Seq::empty(), Seq::empty())
    } else if es[0].ist_leer() {
        eintrag_bloecke_spec(es.drop_first(), nummer)
    } else {
        let nl = notiz_links_spec(es[0].notiz, nummer);
        let zeilen_zahl = teile_spec(es[0].notiz, "\n"@).len() as int;
        let block = BlockAnsicht::Zeile(
            TabellenBlockAnsicht {
                punkt: es[0].punkt,
                art: es[0].art,
                notiz: nl.0,
                kuemmerer: es[0].kuemmerer,
                bis: es[0].bis,
                grau: es[0].art == Art::Todo,
                max_hoehe: if es[0].art == Art::Todo {
                    zeilen_zahl * 80 + 100
                } else {
                    400
                },
            },
        );
        let rest = eintrag_bloecke_spec(es.drop_first(), nummer + nl.1.len());
        (seq![block] + rest.0, nl.1 + rest.1)
    }
}

/// The footnote blocks of the found links, each with its wrapped target.
pub open spec fn link_bloecke_spec(ls: Seq<(int, Seq<char>, Seq<char>)>) -> Seq<BlockAnsicht>
    decreases ls.len(),
{
    if ls.len() == 0 {
        Seq::empty()
    } else {
        seq![BlockAnsicht::Link(ls[0].0, ls[0].1, url_zeilen_spec(ls[0].2))] + link_bloecke_spec(
            ls.drop_first(),
        )
    }
}

/// The complete block sequence of the export, a pure function of the
/// document: header paragraphs, info rows, the entries table and the
/// footnote list, in their fixed order. Both rendering passes use this
/// one sequence, which is what keeps their page counts consistent.
/// The header blocks of the export: paragraphs, rule and info rows.
pub open spec fn kopf_bloecke_spec(d: ProtokollAnsicht) -> Seq<BlockAnsicht> {
    (if d.projekt.len() > 0 {
        seq![BlockAnsicht::Absatz(d.projekt)]
    } else {
        Seq::<BlockAnsicht>::empty()
    }) + seq![BlockAnsicht::Ueberschrift(d.titel)] + (if d.datum_text.len() > 0 || d.ort.len()
        > 0 {
        seq![BlockAnsicht::Absatz(meta_absatz_spec(d))]
    } else {
        Seq::<BlockAnsicht>::empty()
    }) + seq![BlockAnsicht::Trennlinie] + (if d.protokollant.name.len() > 0 {
        seq![BlockAnsicht::Info("Protokollführer"@, person_zeile_spec(d.protokollant))]
    } else {
        Seq::<BlockAnsicht>::empty()
    }) + (if crate::codec::hat_person(d.teilnehmer) {
        seq![BlockAnsicht::Info("Teilnehmer"@, namen_wert_spec(d.teilnehmer))]
    } else {
        Seq::<BlockAnsicht>::empty()
    }) + (if crate::codec::hat_person(d.zur_kenntnis) {
        seq![BlockAnsicht::Info("Zur Kenntnis"@, namen_wert_spec(d.zur_kenntnis))]
    } else {
        Seq::<BlockAnsicht>::empty()
    }) + (if d.ueber_meeting.len() > 0 {
        seq![BlockAnsicht::Info("Über dieses Meeting"@, d.ueber_meeting)]
    } else {
        Seq::<BlockAnsicht>::empty()
    }) + seq![
        BlockAnsicht::Info("Status"@, status_wert_spec(d)),
        BlockAnsicht::Info("Klassifizierung"@, klass_wert_spec(d.sicherheit)),
        BlockAnsicht::Trennlinie,
    ]
}

/// The complete block sequence of the export, a pure function of the
/// document: header paragraphs, info rows, the entries table and the
/// footnote list, in their fixed order. Both rendering passes use this
/// one sequence, which is what keeps their page counts consistent.
pub open spec fn bloecke_spec(d: ProtokollAnsicht) -> Seq<BlockAnsicht> {
    let kopf = kopf_bloecke_spec(d);
    if crate::codec::hat_eintrag(d.eintraege) {
        let eintraege = eintrag_bloecke_spec(d.eintraege, 1);
        kopf + seq![BlockAnsicht::TabellenKopf] + eintraege.0 + (if eintraege.1.len() > 0 {
            seq![BlockAnsicht::LinksUeberschrift] + link_bloecke_spec(eintraege.1)
        } else {
            Seq::<BlockAnsicht>::empty()
        })
    } else {
        kopf
    }
}


proof fn lemma_zeilen_links_anzahl(zeilen: Seq<Seq<char>>, nummer: int)
    ensures
        zeilen_links_ab(zeilen, nummer).1.len() <= gesamtlaenge(zeilen),
    decreases zeilen.len(),
{
    if zeilen.len() > 0 {
        lemma_links_anzahl(zeilen[0], nummer);
        lemma_zeilen_links_anzahl(
            zeilen.drop_first(),
            nummer + links_ab(zeilen[0], nummer).1.len(),
        );
    }
}

/// A note yields at most as many footnotes as it has characters.
proof fn lemma_notiz_links_anzahl(notiz: Seq<char>, nummer: int)
    ensures
        notiz_links_spec(notiz, nummer).1.len() <= notiz.len(),
{
    reveal_strlit("\n");
    lemma_zeilen_links_anzahl(teile_spec(notiz, "\n"@), nummer);
    lemma_teile_gesamtlaenge(notiz, "\n"@);
}

/// Builds the header blocks of the export.
#[verifier::rlimit(100)]
fn kopf_bloecke(d: &crate::modell::Protokoll) -> (r: Vec<Block>)
    ensures
        r.deep_view() == kopf_bloecke_spec(d@),
{
    let mut r: Vec<Block> = Vec::new();
    if !d.projekt.as_str().is_empty() {
        r.push(Block::Absatz(d.projekt.clone()));
    }
    let ghost g1 = (if d@.projekt.len() > 0 {
        seq![BlockAnsicht::Absatz(d@.projekt)]
    } else {
        Seq::<BlockAnsicht>::empty()
    });
    proof {
        assert(r.deep_view() =~~= g1);
    }
    r.push(Block::Ueberschrift(d.titel.clone()));
    let ghost g2 = g1 + seq![BlockAnsicht::Ueberschrift(d@.titel)];
    proof {
        assert(r.deep_view() =~~= g2);
    }
    if !d.datum_text.as_str().is_empty() || !d.ort.as_str().is_empty() {
        let mut meta = String::new();
        if !d.datum_text.as_str().is_empty() && !d.ort.as_str().is_empty() {
            meta.append("Datum: ");
            meta.append(d.datum_text.as_str());
            meta.append("  |  ");
            meta.append("Ort: ");
            meta.append(d.ort.as_str());
        } else if !d.datum_text.as_str().is_empty() {
            meta.append("Datum: ");
            meta.append(d.datum_text.as_str());
        } else {
            meta.append("Ort: ");
            meta.append(d.ort.as_str());
        }
        assert(meta@ =~= meta_absatz_spec(d@));
        r.push(Block::Absatz(meta));
    }
    let ghost g3 = g2 + (if d@.datum_text.len() > 0 || d@.ort.len() > 0 {
        seq![BlockAnsicht::Absatz(meta_absatz_spec(d@))]
    } else {
        Seq::<BlockAnsicht>::empty()
    });
    proof {
        assert(r.deep_view() =~~= g3);
    }
    r.push(Block::Trennlinie);
    let ghost g4 = g3 + seq![BlockAnsicht::Trennlinie];
    proof {
        assert(r.deep_view() =~~= g4);
    }
    if !d.protokollant.name.as_str().is_empty() {
        let beschriftung = zeichen_von("Protokollführer");
        r.push(
            Block::Info(text_von(&beschriftung), crate::codec::person_zeile_text(&d.protokollant)),
        );
    }
    let ghost g5 = g4 + (if d@.protokollant.name.len() > 0 {
        seq![BlockAnsicht::Info("Protokollführer"@, person_zeile_spec(d@.protokollant))]
    } else {
        Seq::<BlockAnsicht>::empty()
    });
    proof {
        assert(r.deep_view() =~~= g5);
    }
    if crate::codec::hat_person_exec(&d.teilnehmer) {
        let beschriftung = zeichen_von("Teilnehmer");
        r.push(Block::Info(text_von(&beschriftung), namen_wert(&d.teilnehmer)));
    }
    let ghost g6 = g5 + (if crate::codec::hat_person(d@.teilnehmer) {
        seq![BlockAnsicht::Info("Teilnehmer"@, namen_wert_spec(d@.teilnehmer))]
    } else {
        Seq::<BlockAnsicht>::empty()
    });
    proof {
        assert(r.deep_view() =~~= g6);
    }
    if crate::codec::hat_person_exec(&d.zur_kenntnis) {
        let beschriftung = zeichen_von("Zur Kenntnis");
        r.push(Block::Info(text_von(&beschriftung), namen_wert(&d.zur_kenntnis)));
    }
    let ghost g7 = g6 + (if crate::codec::hat_person(d@.zur_kenntnis) {
        seq![BlockAnsicht::Info("Zur Kenntnis"@, namen_wert_spec(d@.zur_kenntnis))]
    } else {
        Seq::<BlockAnsicht>::empty()
    });
    proof {
        assert(r.deep_view() =~~= g7);
    }
    if !d.ueber_meeting.as_str().is_empty() {
        let beschriftung = zeichen_von("Über dieses Meeting");
        r.push(Block::Info(text_von(&beschriftung), d.ueber_meeting.clone()));
    }
    let ghost g8 = g7 + (if d@.ueber_meeting.len() > 0 {
        seq![BlockAnsicht::Info("Über dieses Meeting"@, d@.ueber_meeting)]
    } else {
        Seq::<BlockAnsicht>::empty()
    });
    proof {
        assert(r.deep_view() =~~= g8);
    }
    let mut status = String::new();
    if d.ist_entwurf {
        status.append("[x] Entwurf");
    } else {
        status.append("[  ] Entwurf");
    }
    status.append("  ");
    if d.ist_freigegeben {
        status.append("[x] Freigegeben");
    } else {
        status.append("[  ] Freigegeben");
    }
    assert(status@ =~= status_wert_spec(d@));
    let beschriftung_status = zeichen_von("Status");
    r.push(Block::Info(text_von(&beschriftung_status), status));
    let mut klass = klass_kasten(Sicherheit::Oeffentlich, d.sicherheit);
    klass.append("  ");
    let k2 = klass_kasten(Sicherheit::Intern, d.sicherheit);
    klass.append(k2.as_str());
    klass.append("  ");
    let k3 = klass_kasten(Sicherheit::Vertraulich, d.sicherheit);
    klass.append(k3.as_str());
    klass.append("  ");
    let k4 = klass_kasten(Sicherheit::StrengVertraulich, d.sicherheit);
    klass.append(k4.as_str());
    assert(klass@ =~= klass_wert_spec(d@.sicherheit));
    let beschriftung_klass = zeichen_von("Klassifizierung");
    r.push(Block::Info(text_von(&beschriftung_klass), klass));
    r.push(Block::Trennlinie);
    proof {
        let g9 = g8 + seq![
            BlockAnsicht::Info("Status"@, status_wert_spec(d@)),
            BlockAnsicht::Info("Klassifizierung"@, klass_wert_spec(d@.sicherheit)),
            BlockAnsicht::Trennlinie,
        ];
        assert(r.deep_view() =~~= g9);
        assert(kopf_bloecke_spec(d@) == g9);
    }
    r
}

impl crate::modell::Protokoll {
    /// Assembles the visual block sequence of the export. Both rendering
    /// passes call this one side-effect-free procedure, so they traverse
    /// identical blocks and the measured page count stays valid for the
    /// final pass.
    #[verifier::rlimit(100)]
    pub fn bloecke_erstellen(&self) -> (r: Vec<Block>)
        requires
            notizsumme(self@.eintraege) * 80 + 200 <= usize::MAX,
        ensures
            r.deep_view() == bloecke_spec(self@),
    {
        let mut r: Vec<Block> = kopf_bloecke(self);
        let ghost kopf = kopf_bloecke_spec(self@);
        if !crate::codec::hat_eintrag_exec(&self.eintraege) {
            return r;
        }
        r.push(Block::TabellenKopf);
        proof {
            reveal_strlit("\n");
        }
        let umbruch = zeichen_von("\n");
        let ghost alle_es = self@.eintraege;
        let mut zeilen_bloecke: Vec<Block> = Vec::new();
        let mut alle_links: Vec<(usize, String, String)> = Vec::new();
        let mut num: usize = 1;
        let mut k: usize = 0;
        proof {
            lemma_notizsumme_nichtnegativ(alle_es);
            assert(alle_es.subrange(0, alle_es.len() as int) =~= alle_es);
            assert(alle_es.subrange(0, 0) =~= Seq::<EintragAnsicht>::empty());
            assert(zeilen_bloecke.deep_view() =~= Seq::<BlockAnsicht>::empty());
            assert(alle_links@.map_values(|l: (usize, String, String)| link_ansicht(l))
                =~= Seq::<(int, Seq<char>, Seq<char>)>::empty());
            assert(Seq::<BlockAnsicht>::empty() + eintrag_bloecke_spec(alle_es, 1).0
                =~= eintrag_bloecke_spec(alle_es, 1).0);
            assert(Seq::<(int, Seq<char>, Seq<char>)>::empty() + eintrag_bloecke_spec(
                alle_es,
                1,
            ).1 =~= eintrag_bloecke_spec(alle_es, 1).1);
        }
        while k < self.eintraege.len()
            invariant
                k <= self.eintraege@.len(),
                alle_es == self@.eintraege,
                umbruch@ == "\n"@,
                umbruch@.len() == 1,
                notizsumme(alle_es) * 80 + 200 <= usize::MAX,
                num >= 1,
                num - 1 <= notizsumme(alle_es.subrange(0, k as int)),
                num as int == 1 + alle_links@.len(),
                eintrag_bloecke_spec(alle_es, 1).0 == zeilen_bloecke.deep_view()
                    + eintrag_bloecke_spec(alle_es.subrange(k as int, alle_es.len() as int), num as int).0,
                eintrag_bloecke_spec(alle_es, 1).1 == alle_links@.map_values(
                    |l: (usize, String, String)| link_ansicht(l),
                ) + eintrag_bloecke_spec(alle_es.subrange(k as int, alle_es.len() as int), num as int).1,
            decreases self.eintraege@.len() - k,
        {
            let ghost rest = alle_es.subrange(k as int, alle_es.len() as int);
            proof {
                assert(rest[0] == alle_es[k as int]);
                assert(rest.drop_first() =~= alle_es.subrange(k + 1, alle_es.len() as int));
                assert(self.eintraege.deep_view()[k as int] == self.eintraege@[k as int]@);
                lemma_notizsumme_teil(alle_es, k as int);
            }
            let e = &self.eintraege[k];
            if !e.punkt.as_str().is_empty() || !matches!(e.art, Art::Leer)
                || !e.notiz.as_str().is_empty() {
                proof {
                    assert(!alle_es[k as int].ist_leer());
                    lemma_notiz_links_anzahl(alle_es[k as int].notiz, num as int);
                    lemma_teile_anzahl(alle_es[k as int].notiz, "\n"@);
                }
                let erg = notiz_ersetzen(e.notiz.as_str(), num);
                let nz = teile(&zeichen_von(e.notiz.as_str()), &umbruch);
                let zeilen_zahl = nz.len();
                let ist_todo = matches!(e.art, Art::Todo);
                let hoehe: usize = if ist_todo {
                    zeilen_zahl * 80 + 100
                } else {
                    400
                };
                let block = TabellenBlock {
                    punkt: e.punkt.clone(),
                    art: e.art,
                    notiz: erg.0,
                    kuemmerer: e.kuemmerer.clone(),
                    bis: e.bis.clone(),
                    grau: ist_todo,
                    max_hoehe: hoehe,
                };
                let ghost bloecke_alt = zeilen_bloecke.deep_view();
                let ghost links_alt = alle_links@.map_values(
                    |l: (usize, String, String)| link_ansicht(l),
                );
                let ghost nl = notiz_links_spec(alle_es[k as int].notiz, num as int);
                zeilen_bloecke.push(Block::Zeile(block));
                let ghost block_spec = BlockAnsicht::Zeile(
                    TabellenBlockAnsicht {
                        punkt: alle_es[k as int].punkt,
                        art: alle_es[k as int].art,
                        notiz: nl.0,
                        kuemmerer: alle_es[k as int].kuemmerer,
                        bis: alle_es[k as int].bis,
                        grau: alle_es[k as int].art == Art::Todo,
                        max_hoehe: if alle_es[k as int].art == Art::Todo {
                            teile_spec(alle_es[k as int].notiz, "\n"@).len() as int * 80 + 100
                        } else {
                            400
                        },
                    },
                );
                proof {
                    assert(zeilen_bloecke.deep_view() =~~= bloecke_alt.push(block_spec));
                    assert(bloecke_alt + (seq![block_spec] + eintrag_bloecke_spec(
                        rest.drop_first(),
                        num as int + nl.1.len(),
                    ).0) =~= zeilen_bloecke.deep_view() + eintrag_bloecke_spec(
                        rest.drop_first(),
                        num as int + nl.1.len(),
                    ).0);
                }
                let mut j: usize = 0;
                let ghost links_vorher = alle_links@;
                while j < erg.1.len()
                    invariant
                        j <= erg.1@.len(),
                        alle_links@ == links_vorher + erg.1@.subrange(0, j as int),
                    decreases erg.1@.len() - j,
                {
                    let eintrag = (erg.1[j].0, erg.1[j].1.clone(), erg.1[j].2.clone());
                    proof {
                        assert(eintrag == erg.1@[j as int]);
                        assert(erg.1@.subrange(0, j + 1) =~= erg.1@.subrange(0, j as int).push(
                            erg.1@[j as int],
                        ));
                    }
                    alle_links.push(eintrag);
                    j = j + 1;
                }
                proof {
                    assert(erg.1@.subrange(0, erg.1@.len() as int) =~= erg.1@);
                    assert(alle_links@ =~= links_vorher + erg.1@);
                    assert(alle_links@.map_values(|l: (usize, String, String)| link_ansicht(l))
                        =~= links_alt + nl.1);
                    assert(links_alt + (nl.1 + eintrag_bloecke_spec(
                        rest.drop_first(),
                        num as int + nl.1.len(),
                    ).1) =~= (links_alt + nl.1) + eintrag_bloecke_spec(
                        rest.drop_first(),
                        num as int + nl.1.len(),
                    ).1);
                }
                num = num + erg.1.len();
            } else {
                proof {
                    assert(alle_es[k as int].ist_leer());
                }
            }
            k = k + 1;
        }
        proof {
            assert(alle_es.subrange(alle_es.len() as int, alle_es.len() as int)
                =~= Seq::<EintragAnsicht>::empty());
            assert(zeilen_bloecke.deep_view() + Seq::<BlockAnsicht>::empty()
                =~= zeilen_bloecke.deep_view());
            assert(alle_links@.map_values(|l: (usize, String, String)| link_ansicht(l))
                + Seq::<(int, Seq<char>, Seq<char>)>::empty() =~= alle_links@.map_values(
                |l: (usize, String, String)| link_ansicht(l),
            ));
        }
        let ghost vor_zeilen = r.deep_view();
        let ghost zeilen_ansicht = zeilen_bloecke.deep_view();
        let mut zeilen_bloecke = zeilen_bloecke;
        r.append(&mut zeilen_bloecke);
        proof {
            assert(r.deep_view() =~~= vor_zeilen + zeilen_ansicht);
        }
        if alle_links.len() == 0 {
            proof {
                assert(r.deep_view() =~~= bloecke_spec(self@));
            }
            return r;
        }
        r.push(Block::LinksUeberschrift);
        let ghost linksv = alle_links@.map_values(|l: (usize, String, String)| link_ansicht(l));
        let ghost vor_links = r.deep_view();
        let mut m: usize = 0;
        proof {
            assert(linksv.subrange(0, linksv.len() as int) =~= linksv);
            assert(link_bloecke_spec(linksv.subrange(0, 0)) == Seq::<BlockAnsicht>::empty()) by {
                assert(linksv.subrange(0, 0) =~= Seq::<(int, Seq<char>, Seq<char>)>::empty());
            }
            assert(r.deep_view() =~= vor_links + link_bloecke_spec(linksv.subrange(0, 0)));
        }
        while m < alle_links.len()
            invariant
                m <= alle_links@.len(),
                linksv == alle_links@.map_values(|l: (usize, String, String)| link_ansicht(l)),
                r.deep_view() == vor_links + link_bloecke_spec(linksv.subrange(0, m as int)),
            decreases alle_links@.len() - m,
        {
            let ghost bisher = linksv.subrange(0, m as int);
            let nummer = alle_links[m].0;
            let beschriftung = alle_links[m].1.clone();
            let ziel = url_umbrechen(alle_links[m].2.as_str());
            let ghost r_alt = r.deep_view();
            r.push(Block::Link(nummer, beschriftung, ziel));
            proof {
                assert(linksv[m as int] == link_ansicht(alle_links@[m as int]));
                assert(r.deep_view() =~~= r_alt.push(
                    BlockAnsicht::Link(
                        linksv[m as int].0,
                        linksv[m as int].1,
                        url_zeilen_spec(linksv[m as int].2),
                    ),
                ));
                lemma_link_bloecke_anhaengen(bisher, linksv[m as int]);
                assert(linksv.subrange(0, m + 1) =~= bisher.push(linksv[m as int]));
                assert(vor_links + (link_bloecke_spec(bisher) + seq![
                    BlockAnsicht::Link(
                        linksv[m as int].0,
                        linksv[m as int].1,
                        url_zeilen_spec(linksv[m as int].2),
                    ),
                ]) =~= r.deep_view());
            }
            m = m + 1;
        }
        proof {
            assert(linksv.subrange(0, linksv.len() as int) =~= linksv);
            assert(r.deep_view() =~~= bloecke_spec(self@));
        }
        r
    }
}

proof fn lemma_link_bloecke_anhaengen(
    ls: Seq<(int, Seq<char>, Seq<char>)>,
    l: (int, Seq<char>, Seq<char>),
)
    ensures
        link_bloecke_spec(ls.push(l)) == link_bloecke_spec(ls) + seq![
            BlockAnsicht::Link(l.0, l.1, url_zeilen_spec(l.2)),
        ],
    decreases ls.len(),
{
    let erweitert = ls.push(l);
    let block_l = seq![BlockAnsicht::Link(l.0, l.1, url_zeilen_spec(l.2))];
    if ls.len() == 0 {
        assert(erweitert[0] == l);
        assert(erweitert.drop_first() =~= Seq::<(int, Seq<char>, Seq<char>)>::empty());
        assert(link_bloecke_spec(erweitert) == block_l + link_bloecke_spec(
            erweitert.drop_first(),
        ));
        assert(block_l + Seq::<BlockAnsicht>::empty() =~= block_l);
        assert(Seq::<BlockAnsicht>::empty() + block_l =~= block_l);
    } else {
        let block_0 = seq![BlockAnsicht::Link(ls[0].0, ls[0].1, url_zeilen_spec(ls[0].2))];
        assert(erweitert[0] == ls[0]);
        assert(erweitert.drop_first() =~= ls.drop_first().push(l));
        lemma_link_bloecke_anhaengen(ls.drop_first(), l);
        assert(link_bloecke_spec(erweitert) == block_0 + (link_bloecke_spec(ls.drop_first())
            + block_l));
        assert(block_0 + (link_bloecke_spec(ls.drop_first()) + block_l) =~= (block_0
            + link_bloecke_spec(ls.drop_first())) + block_l);
    }
}

} // verus!
