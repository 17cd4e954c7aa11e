//! The save/load/export orchestration: the decisions these operations
//! take — validation, the set-once creation stamp, suggested file names
//! and the encoded content — are computed here; the surrounding program
//! performs the dialogs and the writes.

use vstd::prelude::*;
use vstd::string::StringExecFns;

use crate::codec::kodieren_spec;
use crate::modell::{Person, PersonAnsicht, Protokoll, ProtokollAnsicht};
use crate::text::{teilbereich, text_von, trim_spec, zeichen_von, getrimmt};

verus! {

broadcast use vstd::seq_lib::group_to_multiset_ensures, vstd::seq_lib::to_multiset_insert, vstd::multiset::group_multiset_axioms;

/// Whether a character survives the file-name filter, which keeps the
/// alphabetic characters of the title; named here and supplied by the
/// standard library.
pub uninterp spec fn ist_buchstabe(c: char) -> bool;

pub assume_specification[ char::is_alphabetic ](c: char) -> (r: bool)
    ensures
        r == ist_buchstabe(c),
;

/// The alphabetic characters of a text, in order.
pub open spec fn buchstaben_spec(s: Seq<char>) -> Seq<char>
    decreases s.len(),
{
    if s.len() == 0 {
        Seq::empty()
    } else {
        (if ist_buchstabe(s[0]) {
            seq![s[0]]
        } else {
            Seq::<char>::empty()
        }) + buchstaben_spec(s.drop_first())
    }
}

fn buchstaben(s: &str) -> (r: Vec<char>)
    ensures
        r@ == buchstaben_spec(s@),
{
    let z = zeichen_von(s);
    let mut r: Vec<char> = Vec::new();
    let mut i: usize = 0;
    proof {
        assert(z@.subrange(0, z@.len() as int) =~= z@);
        assert(Seq::<char>::empty() + buchstaben_spec(z@) =~= buchstaben_spec(z@));
    }
    while i < z.len()
        invariant
            i <= z@.len(),
            z@ == s@,
            buchstaben_spec(s@) == r@ + buchstaben_spec(z@.subrange(i as int, z@.len() as int)),
        decreases z@.len() - i,
    {
        let ghost rest = z@.subrange(i as int, z@.len() as int);
        proof {
            assert(rest[0] == z@[i as int]);
            assert(rest.drop_first() =~= z@.subrange(i + 1, z@.len() as int));
        }
        let c = z[i];
        if c.is_alphabetic() {
            proof {
                assert(r@ + (seq![rest[0]] + buchstaben_spec(rest.drop_first())) =~= r@.push(
                    rest[0],
                ) + buchstaben_spec(rest.drop_first()));
            }
            r.push(c);
        } else {
            proof {
                assert(Seq::<char>::empty() + buchstaben_spec(rest.drop_first())
                    =~= buchstaben_spec(rest.drop_first()));
            }
        }
        i = i + 1;
    }
    proof {
        assert(z@.subrange(z@.len() as int, z@.len() as int) =~= Seq::<char>::empty());
        assert(r@ + Seq::<char>::empty() =~= r@);
    }
    r
}

/// The suggested name of the Markdown file: the alphabetic characters of
/// the title between the fixed prefix and the given day in year-month-day
/// notation.
pub open spec fn dateinamen_spec(titel: Seq<char>, datum: Seq<char>) -> Seq<char> {
    "MZProtokoll_"@ + buchstaben_spec(titel) + "__"@ + datum + ".md"@
}

/// The suggested name of the export file.
pub open spec fn pdf_dateinamen_spec(titel: Seq<char>, datum: Seq<char>) -> Seq<char> {
    "MZProtokoll_"@ + buchstaben_spec(titel) + "__"@ + datum + ".pdf"@
}

/// The title written into the export's metadata: the document title with
/// the fixed attribution, or the bare programme name when no title is
/// set.
pub open spec fn pdf_titel_spec(titel: Seq<char>) -> Seq<char> {
    if titel.len() == 0 {
        "MZProtokoll"@
    } else {
        titel + " — MZProtokoll von Marcel Zimmer (www.marcelzimmer.de)"@
    }
}

impl Protokoll {
    /// Suggests a file name for saving, from the title and the given day.
    pub fn dateinamen_erstellen(&self, datum: &str) -> (r: String)
        ensures
            r@ == dateinamen_spec(self@.titel, datum@),
    {
        let mut r = String::new();
        r.append("MZProtokoll_");
        let namensteil = buchstaben(self.titel.as_str());
        let t = text_von(&namensteil);
        r.append(t.as_str());
        r.append("__");
        r.append(datum);
        r.append(".md");
        proof {
            assert(r@ =~= dateinamen_spec(self@.titel, datum@));
        }
        r
    }

    /// Suggests a file name for the export, from the title and the given
    /// day.
    pub fn pdf_dateinamen_erstellen(&self, datum: &str) -> (r: String)
        ensures
            r@ == pdf_dateinamen_spec(self@.titel, datum@),
    {
        let mut r = String::new();
        r.append("MZProtokoll_");
        let namensteil = buchstaben(self.titel.as_str());
        let t = text_von(&namensteil);
        r.append(t.as_str());
        r.append("__");
        r.append(datum);
        r.append(".pdf");
        proof {
            assert(r@ =~= pdf_dateinamen_spec(self@.titel, datum@));
        }
        r
    }

    /// The title for the export's metadata.
    pub fn pdf_titel(&self) -> (r: String)
        ensures
            r@ == pdf_titel_spec(self@.titel),
    {
        if self.titel.as_str().is_empty() {
            let mut r = String::new();
            r.append("MZProtokoll");
            assert(r@ =~= pdf_titel_spec(self@.titel));
            r
        } else {
            let mut r = self.titel.clone();
            r.append(" — MZProtokoll von Marcel Zimmer (www.marcelzimmer.de)");
            r
        }
    }
}

/// A hexadecimal digit's value, or `-1` for any other character.
pub open spec fn hex_wert(c: char) -> int {
    if '0' <= c && c <= '9' {
        c as int - '0' as int
    } else if 'a' <= c && c <= 'f' {
        c as int - 'a' as int + 10
    } else if 'A' <= c && c <= 'F' {
        c as int - 'A' as int + 10
    } else {
        -1
    }
}

fn hex_ziffer(c: char) -> (r: i8)
    ensures
        r as int == hex_wert(c),
{
    if '0' <= c && c <= '9' {
        ((c as u32 - '0' as u32) as u8) as i8
    } else if 'a' <= c && c <= 'f' {
        ((c as u32 - 'a' as u32) as u8 + 10) as i8
    } else if 'A' <= c && c <= 'F' {
        ((c as u32 - 'A' as u32) as u8 + 10) as i8
    } else {
        -1
    }
}

/// The colour encoded by a hex colour code: the text is trimmed, leading
/// `#` marks are stripped, and exactly six hex digits give the three
/// channels.
pub open spec fn hex_farbe_spec(s: Seq<char>) -> Option<(u8, u8, u8)> {
    let t = crate::text::streife_links_spec(trim_spec(s), '#');
    if t.len() != 6 || hex_wert(t[0]) < 0 || hex_wert(t[1]) < 0 || hex_wert(t[2]) < 0 || hex_wert(
        t[3],
    ) < 0 || hex_wert(t[4]) < 0 || hex_wert(t[5]) < 0 {
        None
    } else {
        Some(
            (
                (hex_wert(t[0]) * 16 + hex_wert(t[1])) as u8,
                (hex_wert(t[2]) * 16 + hex_wert(t[3])) as u8,
                (hex_wert(t[4]) * 16 + hex_wert(t[5])) as u8,
            ),
        )
    }
}

/// Reads a hex colour code such as `#1a2b3c` into an RGB triple; any
/// other shape yields nothing.
pub fn hex_farbe_parsen(hex: &str) -> (r: Option<(u8, u8, u8)>)
    ensures
        r == hex_farbe_spec(hex@),
{
    let z = zeichen_von(hex);
    let t = crate::text::gestreift_links(&getrimmt(&z), '#');
    if t.len() != 6 {
        return None;
    }
    let h0 = hex_ziffer(t[0]);
    let h1 = hex_ziffer(t[1]);
    let h2 = hex_ziffer(t[2]);
    let h3 = hex_ziffer(t[3]);
    let h4 = hex_ziffer(t[4]);
    let h5 = hex_ziffer(t[5]);
    if h0 < 0 || h1 < 0 || h2 < 0 || h3 < 0 || h4 < 0 || h5 < 0 {
        return None;
    }
    Some(
        (
            (h0 as u8) * 16 + (h1 as u8),
            (h2 as u8) * 16 + (h3 as u8),
            (h4 as u8) * 16 + (h5 as u8),
        ),
    )
}


/// The Unicode lowercase mapping of a text, named here and supplied by
/// the standard library; person lists are ordered by it.
pub uninterp spec fn klein_von(s: Seq<char>) -> Seq<char>;

/// Relies on str::to_lowercase: the Unicode lowercase mapping of the
/// text, a function of the characters alone.
#[verifier::external_body]
fn zu_klein(s: &str) -> (r: String)
    ensures
        r@ == klein_von(s@),
{
    s.to_lowercase()
}

/// Lexicographic order on character sequences by code point.
pub open spec fn lex_kleiner_gleich(a: Seq<char>, b: Seq<char>) -> bool
    decreases a.len(),
{
    if a.len() == 0 {
        true
    } else if b.len() == 0 {
        false
    } else if a[0] < b[0] {
        true
    } else if a[0] > b[0] {
        false
    } else {
        lex_kleiner_gleich(a.drop_first(), b.drop_first())
    }
}

/// Any two texts are comparable.
pub proof fn lemma_lex_total(a: Seq<char>, b: Seq<char>)
    ensures
        lex_kleiner_gleich(a, b) || lex_kleiner_gleich(b, a),
    decreases a.len(),
{
    if a.len() > 0 && b.len() > 0 && a[0] == b[0] {
        lemma_lex_total(a.drop_first(), b.drop_first());
    }
}

/// The order on texts is transitive.
pub proof fn lemma_lex_trans(a: Seq<char>, b: Seq<char>, c: Seq<char>)
    requires
        lex_kleiner_gleich(a, b),
        lex_kleiner_gleich(b, c),
    ensures
        lex_kleiner_gleich(a, c),
    decreases a.len(),
{
    if a.len() > 0 {
        if b.len() > 0 && c.len() > 0 && a[0] == b[0] && b[0] == c[0] {
            lemma_lex_trans(a.drop_first(), b.drop_first(), c.drop_first());
        }
    }
}

/// Compares two character vectors lexicographically.
fn lex_exec(a: &Vec<char>, b: &Vec<char>) -> (r: bool)
    ensures
        r == lex_kleiner_gleich(a@, b@),
{
    let mut i: usize = 0;
    proof {
        assert(a@.skip(0) =~= a@);
        assert(b@.skip(0) =~= b@);
    }
    loop
        invariant
            i <= a@.len(),
            i <= b@.len(),
            lex_kleiner_gleich(a@, b@) == lex_kleiner_gleich(
                a@.skip(i as int),
                b@.skip(i as int),
            ),
        decreases a@.len() - i,
    {
        let ghost ra = a@.skip(i as int);
        let ghost rb = b@.skip(i as int);
        if i >= a.len() {
            assert(ra.len() == 0);
            return true;
        }
        if i >= b.len() {
            assert(ra.len() > 0 && rb.len() == 0);
            return false;
        }
        let ca = a[i];
        let cb = b[i];
        proof {
            assert(ra[0] == a@[i as int]);
            assert(rb[0] == b@[i as int]);
            assert(ra.drop_first() =~= a@.skip(i + 1));
            assert(rb.drop_first() =~= b@.skip(i + 1));
        }
        if ca < cb {
            assert(lex_kleiner_gleich(ra, rb));
            return true;
        }
        if ca > cb {
            assert(!lex_kleiner_gleich(ra, rb));
            return false;
        }
        proof {
            assert(lex_kleiner_gleich(ra, rb) == lex_kleiner_gleich(
                ra.drop_first(),
                rb.drop_first(),
            ));
        }
        i = i + 1;
    }
}

/// Order of persons in the lists: persons without a name come last, the
/// rest are ordered by the lowercase mapping of their names.
pub open spec fn person_vor(a: PersonAnsicht, b: PersonAnsicht) -> bool {
    let a_leer = trim_spec(a.name).len() == 0;
    let b_leer = trim_spec(b.name).len() == 0;
    if a_leer && !b_leer {
        false
    } else if !a_leer && b_leer {
        true
    } else {
        lex_kleiner_gleich(klein_von(a.name), klein_von(b.name))
    }
}

pub proof fn lemma_person_total(a: PersonAnsicht, b: PersonAnsicht)
    ensures
        person_vor(a, b) || person_vor(b, a),
{
    lemma_lex_total(klein_von(a.name), klein_von(b.name));
}

pub proof fn lemma_person_trans(a: PersonAnsicht, b: PersonAnsicht, c: PersonAnsicht)
    requires
        person_vor(a, b),
        person_vor(b, c),
    ensures
        person_vor(a, c),
{
    let a_leer = trim_spec(a.name).len() == 0;
    let b_leer = trim_spec(b.name).len() == 0;
    let c_leer = trim_spec(c.name).len() == 0;
    if (a_leer == b_leer) && (b_leer == c_leer) {
        lemma_lex_trans(klein_von(a.name), klein_von(b.name), klein_von(c.name));
    } else if a_leer && b_leer && !c_leer {
    } else if !a_leer && (b_leer == c_leer) {
    } else {
    }
}

fn person_vor_exec(a: &Person, b: &Person) -> (r: bool)
    ensures
        r == person_vor(a@, b@),
{
    let a_name = zeichen_von(a.name.as_str());
    let b_name = zeichen_von(b.name.as_str());
    let a_leer = getrimmt(&a_name).len() == 0;
    let b_leer = getrimmt(&b_name).len() == 0;
    if a_leer && !b_leer {
        false
    } else if !a_leer && b_leer {
        true
    } else {
        let a_klein = zu_klein(a.name.as_str());
        let b_klein = zu_klein(b.name.as_str());
        lex_exec(&zeichen_von(a_klein.as_str()), &zeichen_von(b_klein.as_str()))
    }
}

/// Is the list in order, persons without a name last?
pub open spec fn personen_sortiert(s: Seq<PersonAnsicht>) -> bool {
    forall|i: int, j: int| 0 <= i < j < s.len() ==> person_vor(#[trigger] s[i], #[trigger] s[j])
}

/// Sorts one people list: alphabetically by the lowercase name, persons
/// without a name moved to the end; the persons themselves are kept
/// unchanged.
#[verifier::rlimit(100)]
pub fn personen_sortieren(v: &mut Vec<Person>)
    ensures
        personen_sortiert(final(v).deep_view()),
        final(v)@.to_multiset() == old(v)@.to_multiset(),
        final(v).deep_view().to_multiset() == old(v).deep_view().to_multiset(),
{
    let mut i: usize = 1;
    while i < v.len()
        invariant
            1 <= i,
            v@.to_multiset() == old(v)@.to_multiset(),
            v.deep_view().to_multiset() == old(v).deep_view().to_multiset(),
            v@.len() == old(v)@.len(),
            forall|a: int, b: int|
                0 <= a < b < i && b < v@.len() ==> person_vor(
                    #[trigger] v.deep_view()[a],
                    #[trigger] v.deep_view()[b],
                ),
        decreases v@.len() - i,
    {
        let mut j: usize = i;
        while j > 0 && !person_vor_exec(&v[j - 1], &v[j])
            invariant
                0 <= j <= i < v@.len(),
                v@.to_multiset() == old(v)@.to_multiset(),
                v.deep_view().to_multiset() == old(v).deep_view().to_multiset(),
                v@.len() == old(v)@.len(),
                forall|a: int, b: int|
                    0 <= a < b <= i && b != j ==> person_vor(
                        #[trigger] v.deep_view()[a],
                        #[trigger] v.deep_view()[b],
                    ),
                forall|b: int|
                    j < b <= i ==> person_vor(v.deep_view()[j as int], #[trigger] v.deep_view()[b]),
            decreases j,
        {
            proof {
                lemma_person_total(v.deep_view()[j - 1], v.deep_view()[j as int]);
                assert(person_vor(v.deep_view()[j as int], v.deep_view()[j - 1]));
            }
            let ghost dv = v.deep_view();
            let ghost vv = v@;
            let x = v.remove(j);
            proof {
                assert(vv.to_multiset().count(vv[j as int]) >= 1) by {
                    assert(0 <= j < vv.len() && vv[j as int] == vv[j as int]);
                    assert(vv.contains(vv[j as int]));
                }
            }
            v.insert(j - 1, x);
            proof {
                assert(v@ =~= vv.remove(j as int).insert(j - 1, vv[j as int]));
                assert(v@.to_multiset() =~= vv.to_multiset());
                assert forall|k: int| 0 <= k < v@.len() implies v.deep_view()[k] == (if k == j - 1 {
                    dv[j as int]
                } else if k == j {
                    dv[j - 1]
                } else {
                    dv[k]
                }) by {
                    assert(v@[k] == (if k == j - 1 {
                        vv[j as int]
                    } else if k == j {
                        vv[j - 1]
                    } else {
                        vv[k]
                    }));
                }
                assert(v.deep_view() =~= dv.remove(j as int).insert(j - 1, dv[j as int]));
                assert(dv.to_multiset().count(dv[j as int]) >= 1) by {
                    assert(0 <= j < dv.len() && dv[j as int] == dv[j as int]);
                    assert(dv.contains(dv[j as int]));
                }
                assert(v.deep_view().to_multiset() =~= dv.to_multiset());
            }
            j = j - 1;
        }
        proof {
            let dv = v.deep_view();
            if j > 0 {
                assert(person_vor(dv[j - 1], dv[j as int]));
            }
            assert forall|a: int, b: int| 0 <= a < b <= i && b < v@.len() implies person_vor(
                #[trigger] dv[a],
                #[trigger] dv[b],
            ) by {
                if b == j {
                    if a < j - 1 {
                        assert(person_vor(dv[a], dv[j - 1]));
                        lemma_person_trans(dv[a], dv[j - 1], dv[j as int]);
                    }
                }
            }
        }
        i = i + 1;
    }
}

impl Protokoll {
    /// Sorts participants and for-information persons alphabetically,
    /// with empty rows moved to the end.
    pub fn sort_personen(&mut self)
        ensures
            personen_sortiert(final(self).teilnehmer.deep_view()),
            personen_sortiert(final(self).zur_kenntnis.deep_view()),
            final(self).teilnehmer@.to_multiset() == old(self).teilnehmer@.to_multiset(),
            final(self).zur_kenntnis@.to_multiset() == old(self).zur_kenntnis@.to_multiset(),
            final(self).teilnehmer.deep_view().to_multiset() == old(
                self,
            ).teilnehmer.deep_view().to_multiset(),
            final(self).zur_kenntnis.deep_view().to_multiset() == old(
                self,
            ).zur_kenntnis.deep_view().to_multiset(),
            final(self).projekt == old(self).projekt,
            final(self).titel == old(self).titel,
            final(self).datum_text == old(self).datum_text,
            final(self).ort == old(self).ort,
            final(self).protokollant == old(self).protokollant,
            final(self).ueber_meeting == old(self).ueber_meeting,
            final(self).ist_entwurf == old(self).ist_entwurf,
            final(self).ist_freigegeben == old(self).ist_freigegeben,
            final(self).sicherheit == old(self).sicherheit,
            final(self).eintraege == old(self).eintraege,
            final(self).erstellt_am == old(self).erstellt_am,
            final(self).erstellt_von == old(self).erstellt_von,
    {
        personen_sortieren(&mut self.teilnehmer);
        personen_sortieren(&mut self.zur_kenntnis);
    }
}


/// What the save operation decides to do, before any I/O happens.
pub enum SpeicherAktion {
    /// The required author name is missing: show the notice, write nothing.
    Pflichtfeldhinweis,
    /// A target path is already known: write this content to it.
    Schreiben(String),
    /// No path yet: ask for one with this suggested file name, then write
    /// this content.
    DialogSpeichern(String, String),
}

/// What the export operation decides to do, before any I/O happens.
pub enum ExportAktion {
    /// The required author name is missing: show the notice, export nothing.
    Pflichtfeldhinweis,
    /// Proceed with the export: first write the optional auto-saved
    /// content to the known path, then ask for an export path with the
    /// suggested file name; font loading and rendering follow outside.
    Fortfahren(Option<String>, String),
}

impl Protokoll {
    /// Prepares saving: sorts the people lists, validates the required
    /// author field, records the creation stamp on the first successful
    /// save, and encodes the document. `jetzt` is the current timestamp
    /// and `heute` the current day for the suggested file name; writing
    /// happens outside.
    pub fn speichern_vorbereiten(&mut self, pfad_bekannt: bool, jetzt: &str, heute: &str) -> (r:
        SpeicherAktion)
        ensures
            personen_sortiert(final(self).teilnehmer.deep_view()),
            personen_sortiert(final(self).zur_kenntnis.deep_view()),
            final(self).teilnehmer@.to_multiset() == old(self).teilnehmer@.to_multiset(),
            final(self).zur_kenntnis@.to_multiset() == old(self).zur_kenntnis@.to_multiset(),
            final(self).projekt == old(self).projekt,
            final(self).titel == old(self).titel,
            final(self).datum_text == old(self).datum_text,
            final(self).ort == old(self).ort,
            final(self).protokollant == old(self).protokollant,
            final(self).ueber_meeting == old(self).ueber_meeting,
            final(self).ist_entwurf == old(self).ist_entwurf,
            final(self).ist_freigegeben == old(self).ist_freigegeben,
            final(self).sicherheit == old(self).sicherheit,
            final(self).eintraege == old(self).eintraege,
            trim_spec(old(self).protokollant.name@).len() == 0 ==> r
                == SpeicherAktion::Pflichtfeldhinweis && final(self).erstellt_am == old(
                self,
            ).erstellt_am && final(self).erstellt_von == old(self).erstellt_von,
            trim_spec(old(self).protokollant.name@).len() > 0 ==> ({
                &&& final(self).erstellt_am@ == (if old(self).erstellt_am@.len() == 0 {
                    jetzt@
                } else {
                    old(self).erstellt_am@
                })
                &&& final(self).erstellt_von@ == (if old(self).erstellt_am@.len() == 0 {
                    old(self).protokollant.name@
                } else {
                    old(self).erstellt_von@
                })
                &&& match r {
                    SpeicherAktion::Schreiben(inhalt) => pfad_bekannt && inhalt@ == kodieren_spec(
                        final(self)@,
                        jetzt@,
                    ),
                    SpeicherAktion::DialogSpeichern(name, inhalt) => !pfad_bekannt && name@
                        == dateinamen_spec(final(self)@.titel, heute@) && inhalt@ == kodieren_spec(
                        final(self)@,
                        jetzt@,
                    ),
                    SpeicherAktion::Pflichtfeldhinweis => false,
                }
            }),
    {
        self.sort_personen();
        let name = zeichen_von(self.protokollant.name.as_str());
        if getrimmt(&name).len() == 0 {
            return SpeicherAktion::Pflichtfeldhinweis;
        }
        if self.erstellt_am.as_str().is_empty() {
            self.erstellt_am = String::from_str(jetzt);
            self.erstellt_von = self.protokollant.name.clone();
        }
        let inhalt = self.markdown_erstellen(jetzt);
        if pfad_bekannt {
            SpeicherAktion::Schreiben(inhalt)
        } else {
            let dateiname = self.dateinamen_erstellen(heute);
            SpeicherAktion::DialogSpeichern(dateiname, inhalt)
        }
    }

    /// Prepares the export: sorts the people lists, validates the
    /// required author field, and — when a save path is known — records
    /// the creation stamp and encodes the document for the opportunistic
    /// auto-save. Font resolution, the dialog and the two rendering
    /// passes follow outside.
    pub fn pdf_exportieren_vorbereiten(&mut self, pfad_bekannt: bool, jetzt: &str, heute: &str) -> (
        r: ExportAktion)
        ensures
            personen_sortiert(final(self).teilnehmer.deep_view()),
            personen_sortiert(final(self).zur_kenntnis.deep_view()),
            final(self).teilnehmer@.to_multiset() == old(self).teilnehmer@.to_multiset(),
            final(self).zur_kenntnis@.to_multiset() == old(self).zur_kenntnis@.to_multiset(),
            final(self).projekt == old(self).projekt,
            final(self).titel == old(self).titel,
            final(self).protokollant == old(self).protokollant,
            final(self).eintraege == old(self).eintraege,
            trim_spec(old(self).protokollant.name@).len() == 0 ==> r
                == ExportAktion::Pflichtfeldhinweis && final(self).erstellt_am == old(
                self,
            ).erstellt_am && final(self).erstellt_von == old(self).erstellt_von,
            trim_spec(old(self).protokollant.name@).len() > 0 ==> match r {
                ExportAktion::Fortfahren(inhalt, name) => {
                    &&& name@ == pdf_dateinamen_spec(final(self)@.titel, heute@)
                    &&& (pfad_bekannt <==> inhalt is Some)
                    &&& (inhalt matches Some(text) ==> text@ == kodieren_spec(final(self)@, jetzt@))
                    &&& !pfad_bekannt ==> final(self).erstellt_am == old(self).erstellt_am
                },
                ExportAktion::Pflichtfeldhinweis => false,
            },
    {
        self.sort_personen();
        let name = zeichen_von(self.protokollant.name.as_str());
        if getrimmt(&name).len() == 0 {
            return ExportAktion::Pflichtfeldhinweis;
        }
        let inhalt = if pfad_bekannt {
            if self.erstellt_am.as_str().is_empty() {
                self.erstellt_am = String::from_str(jetzt);
                self.erstellt_von = self.protokollant.name.clone();
            }
            Some(self.markdown_erstellen(jetzt))
        } else {
            None
        };
        let dateiname = self.pdf_dateinamen_erstellen(heute);
        ExportAktion::Fortfahren(inhalt, dateiname)
    }

    /// Takes loaded file content over into the document: the text is
    /// decoded, fully replacing the previous state, and the people lists
    /// are sorted as the load operation does.
    pub fn laden_uebernehmen(&mut self, inhalt: &str)
        ensures
            ({
                let gelesen = crate::codec::parse_spec(inhalt@);
                let d = *final(self);
                &&& d@.projekt == gelesen.projekt
                &&& d@.titel == gelesen.titel
                &&& d@.datum_text == gelesen.datum_text
                &&& d@.ort == gelesen.ort
                &&& d@.protokollant == gelesen.protokollant
                &&& d@.ueber_meeting == gelesen.ueber_meeting
                &&& d@.ist_entwurf == gelesen.ist_entwurf
                &&& d@.ist_freigegeben == gelesen.ist_freigegeben
                &&& d@.sicherheit == gelesen.sicherheit
                &&& d@.eintraege == gelesen.eintraege
                &&& d@.erstellt_am == gelesen.erstellt_am
                &&& d@.erstellt_von == gelesen.erstellt_von
                &&& personen_sortiert(d.teilnehmer.deep_view())
                &&& personen_sortiert(d.zur_kenntnis.deep_view())
                &&& d.teilnehmer.deep_view().to_multiset() == gelesen.teilnehmer.to_multiset()
                &&& d.zur_kenntnis.deep_view().to_multiset() == gelesen.zur_kenntnis.to_multiset()
                &&& d@.wohlgeformt()
            }),
    {
        self.markdown_parsen(inhalt);
        let ghost mitte = *self;
        self.sort_personen();
        proof {
            assert(mitte@ == crate::codec::parse_spec(inhalt@));
            assert(mitte.teilnehmer.deep_view() == mitte@.teilnehmer);
            assert(mitte.zur_kenntnis.deep_view() == mitte@.zur_kenntnis);
            assert(mitte.teilnehmer.deep_view().to_multiset().len()
                == mitte.teilnehmer.deep_view().len());
            assert(self.teilnehmer.deep_view().to_multiset().len()
                == self.teilnehmer.deep_view().len());
            assert(mitte.zur_kenntnis.deep_view().to_multiset().len()
                == mitte.zur_kenntnis.deep_view().len());
            assert(self.zur_kenntnis.deep_view().to_multiset().len()
                == self.zur_kenntnis.deep_view().len());
            assert(self@.teilnehmer.len() == mitte@.teilnehmer.len());
            assert(self@.zur_kenntnis.len() == mitte@.zur_kenntnis.len());
        }
    }
}


/// Does the sequence of texts contain exactly this text?
pub open spec fn ansicht_enthalten(vs: Seq<Seq<char>>, x: Seq<char>) -> bool {
    exists|n: int| 0 <= n < vs.len() && vs[n] == x
}

/// Does some person of the list carry exactly this non-empty code?
pub open spec fn kuerzel_in_liste(liste: Seq<PersonAnsicht>, x: Seq<char>) -> bool {
    x.len() > 0 && exists|i: int| 0 <= i < liste.len() && (#[trigger] liste[i]).kuerzel == x
}

/// Does some person of the document carry exactly this non-empty code?
pub open spec fn kuerzel_vorhanden(d: ProtokollAnsicht, x: Seq<char>) -> bool {
    (x.len() > 0 && d.protokollant.kuerzel == x) || kuerzel_in_liste(d.teilnehmer, x)
        || kuerzel_in_liste(d.zur_kenntnis, x)
}

fn text_vor_exec(a: &String, b: &String) -> (r: bool)
    ensures
        r == lex_kleiner_gleich(a@, b@),
{
    lex_exec(&zeichen_von(a.as_str()), &zeichen_von(b.as_str()))
}

/// Sorts the texts lexicographically; the texts themselves are kept.
fn texte_sortieren(v: &mut Vec<String>)
    ensures
        forall|a: int, b: int|
            0 <= a < b < final(v)@.len() ==> lex_kleiner_gleich(
                #[trigger] final(v).deep_view()[a],
                #[trigger] final(v).deep_view()[b],
            ),
        final(v)@.to_multiset() == old(v)@.to_multiset(),
{
    let mut i: usize = 1;
    while i < v.len()
        invariant
            1 <= i,
            v@.to_multiset() == old(v)@.to_multiset(),
            v@.len() == old(v)@.len(),
            forall|a: int, b: int|
                0 <= a < b < i && b < v@.len() ==> lex_kleiner_gleich(
                    #[trigger] v.deep_view()[a],
                    #[trigger] v.deep_view()[b],
                ),
        decreases v@.len() - i,
    {
        let mut j: usize = i;
        while j > 0 && !text_vor_exec(&v[j - 1], &v[j])
            invariant
                0 <= j <= i < v@.len(),
                v@.to_multiset() == old(v)@.to_multiset(),
                v@.len() == old(v)@.len(),
                forall|a: int, b: int|
                    0 <= a < b <= i && b != j ==> lex_kleiner_gleich(
                        #[trigger] v.deep_view()[a],
                        #[trigger] v.deep_view()[b],
                    ),
                forall|b: int|
                    j < b <= i ==> lex_kleiner_gleich(
                        v.deep_view()[j as int],
                        #[trigger] v.deep_view()[b],
                    ),
            decreases j,
        {
            proof {
                lemma_lex_total(v.deep_view()[j - 1], v.deep_view()[j as int]);
                assert(lex_kleiner_gleich(v.deep_view()[j as int], v.deep_view()[j - 1]));
            }
            let ghost dv = v.deep_view();
            let ghost vv = v@;
            let x = v.remove(j);
            proof {
                assert(vv.to_multiset().count(vv[j as int]) >= 1) by {
                    assert(0 <= j < vv.len() && vv[j as int] == vv[j as int]);
                    assert(vv.contains(vv[j as int]));
                }
            }
            v.insert(j - 1, x);
            proof {
                assert(v@ =~= vv.remove(j as int).insert(j - 1, vv[j as int]));
                assert(v@.to_multiset() =~= vv.to_multiset());
                assert forall|k: int| 0 <= k < v@.len() implies v.deep_view()[k] == (if k == j - 1 {
                    dv[j as int]
                } else if k == j {
                    dv[j - 1]
                } else {
                    dv[k]
                }) by {
                    assert(v@[k] == (if k == j - 1 {
                        vv[j as int]
                    } else if k == j {
                        vv[j - 1]
                    } else {
                        vv[k]
                    }));
                }
            }
            j = j - 1;
        }
        proof {
            let dv = v.deep_view();
            if j > 0 {
                assert(lex_kleiner_gleich(dv[j - 1], dv[j as int]));
            }
            assert forall|a: int, b: int| 0 <= a < b <= i && b < v@.len() implies lex_kleiner_gleich(
                #[trigger] dv[a],
                #[trigger] dv[b],
            ) by {
                if b == j {
                    if a < j - 1 {
                        assert(lex_kleiner_gleich(dv[a], dv[j - 1]));
                        lemma_lex_trans(dv[a], dv[j - 1], dv[j as int]);
                    }
                }
            }
        }
        i = i + 1;
    }
}

impl Protokoll {
    /// All known initials codes — author, participants and
    /// for-information persons — sorted, with duplicates removed.
    /// Exactly the non-empty codes of the document appear.
    #[verifier::rlimit(100)]
    pub fn alle_kuerzel(&self) -> (r: Vec<String>)
        ensures
            forall|a: int, b: int|
                0 <= a < b < r@.len() ==> lex_kleiner_gleich(
                    #[trigger] r.deep_view()[a],
                    #[trigger] r.deep_view()[b],
                ),
            forall|a: int|
                0 <= a < r@.len() - 1 ==> #[trigger] r.deep_view()[a] != r.deep_view()[a + 1],
            forall|x: Seq<char>|
                #[trigger] ansicht_enthalten(r.deep_view(), x) <==> kuerzel_vorhanden(self@, x),
    {
        let mut k: Vec<String> = Vec::new();
        if !self.protokollant.kuerzel.as_str().is_empty() {
            k.push(self.protokollant.kuerzel.clone());
        }
        proof {
            assert forall|x: Seq<char>| #[trigger]
                ansicht_enthalten(k.deep_view(), x) <==> (x.len() > 0
                && self@.protokollant.kuerzel == x) by {
                if x.len() > 0 && self@.protokollant.kuerzel == x {
                    assert(k.deep_view()[0] == x);
                }
            }
        }
        let mut i: usize = 0;
        while i < self.teilnehmer.len()
            invariant
                i <= self.teilnehmer@.len(),
                forall|x: Seq<char>| #[trigger]
                    ansicht_enthalten(k.deep_view(), x) <==> ((x.len() > 0
                        && self@.protokollant.kuerzel == x) || kuerzel_in_liste(
                        self@.teilnehmer.subrange(0, i as int),
                        x,
                    )),
            decreases self.teilnehmer@.len() - i,
        {
            let ghost k_alt = k.deep_view();
            proof {
                assert(self@.teilnehmer[i as int] == self.teilnehmer@[i as int]@);
            }
            if !self.teilnehmer[i].kuerzel.as_str().is_empty() {
                k.push(self.teilnehmer[i].kuerzel.clone());
                proof {
                    assert(k.deep_view() =~~= k_alt.push(self@.teilnehmer[i as int].kuerzel));
                }
            }
            proof {
                let bisher = self@.teilnehmer.subrange(0, i as int);
                let jetzt = self@.teilnehmer.subrange(0, i + 1);
                assert(jetzt =~= bisher.push(self@.teilnehmer[i as int]));
                assert forall|x: Seq<char>| #[trigger]
                    ansicht_enthalten(k.deep_view(), x) <==> ((x.len() > 0
                        && self@.protokollant.kuerzel == x) || kuerzel_in_liste(jetzt, x)) by {
                    if ansicht_enthalten(k.deep_view(), x) {
                        let m = choose|n: int|
                            0 <= n < k.deep_view().len() && k.deep_view()[n] == x;
                        if m < k_alt.len() {
                            assert(ansicht_enthalten(k_alt, x)) by {
                                assert(k_alt[m] == x);
                            }
                        } else {
                            assert(jetzt[i as int].kuerzel == x);
                        }
                    }
                    if kuerzel_in_liste(jetzt, x) {
                        let n = choose|n: int|
                            0 <= n < jetzt.len() && (#[trigger] jetzt[n]).kuerzel == x;
                        if n < i {
                            assert(bisher[n].kuerzel == x);
                            assert(kuerzel_in_liste(bisher, x));
                        } else {
                            assert(k.deep_view()[k.deep_view().len() - 1] == x);
                        }
                    }
                    if x.len() > 0 && self@.protokollant.kuerzel == x {
                        assert(ansicht_enthalten(k_alt, x));
                        let m = choose|n: int| 0 <= n < k_alt.len() && k_alt[n] == x;
                        assert(k.deep_view()[m] == x);
                    }
                    if kuerzel_in_liste(bisher, x) {
                        assert(ansicht_enthalten(k_alt, x));
                        let m = choose|n: int| 0 <= n < k_alt.len() && k_alt[n] == x;
                        assert(k.deep_view()[m] == x);
                    }
                }
            }
            i = i + 1;
        }
        proof {
            assert(self@.teilnehmer.subrange(0, self@.teilnehmer.len() as int)
                =~= self@.teilnehmer);
        }
        let mut i2: usize = 0;
        while i2 < self.zur_kenntnis.len()
            invariant
                i2 <= self.zur_kenntnis@.len(),
                forall|x: Seq<char>| #[trigger]
                    ansicht_enthalten(k.deep_view(), x) <==> ((x.len() > 0
                        && self@.protokollant.kuerzel == x) || kuerzel_in_liste(
                        self@.teilnehmer,
                        x,
                    ) || kuerzel_in_liste(self@.zur_kenntnis.subrange(0, i2 as int), x)),
            decreases self.zur_kenntnis@.len() - i2,
        {
            let ghost k_alt = k.deep_view();
            proof {
                assert(self@.zur_kenntnis[i2 as int] == self.zur_kenntnis@[i2 as int]@);
            }
            if !self.zur_kenntnis[i2].kuerzel.as_str().is_empty() {
                k.push(self.zur_kenntnis[i2].kuerzel.clone());
                proof {
                    assert(k.deep_view() =~~= k_alt.push(self@.zur_kenntnis[i2 as int].kuerzel));
                }
            }
            proof {
                let bisher = self@.zur_kenntnis.subrange(0, i2 as int);
                let jetzt = self@.zur_kenntnis.subrange(0, i2 + 1);
                assert(jetzt =~= bisher.push(self@.zur_kenntnis[i2 as int]));
                assert forall|x: Seq<char>| #[trigger]
                    ansicht_enthalten(k.deep_view(), x) <==> ((x.len() > 0
                        && self@.protokollant.kuerzel == x) || kuerzel_in_liste(
                        self@.teilnehmer,
                        x,
                    ) || kuerzel_in_liste(jetzt, x)) by {
                    if ansicht_enthalten(k.deep_view(), x) {
                        let m = choose|n: int|
                            0 <= n < k.deep_view().len() && k.deep_view()[n] == x;
                        if m < k_alt.len() {
                            assert(ansicht_enthalten(k_alt, x)) by {
                                assert(k_alt[m] == x);
                            }
                        } else {
                            assert(jetzt[i2 as int].kuerzel == x);
                        }
                    }
                    if kuerzel_in_liste(jetzt, x) {
                        let n = choose|n: int|
                            0 <= n < jetzt.len() && (#[trigger] jetzt[n]).kuerzel == x;
                        if n < i2 {
                            assert(bisher[n].kuerzel == x);
                            assert(kuerzel_in_liste(bisher, x));
                        } else {
                            assert(k.deep_view()[k.deep_view().len() - 1] == x);
                        }
                    }
                    if (x.len() > 0 && self@.protokollant.kuerzel == x) || kuerzel_in_liste(
                        self@.teilnehmer,
                        x,
                    ) || kuerzel_in_liste(bisher, x) {
                        assert(ansicht_enthalten(k_alt, x));
                        let m = choose|n: int| 0 <= n < k_alt.len() && k_alt[n] == x;
                        assert(k.deep_view()[m] == x);
                    }
                }
            }
            i2 = i2 + 1;
        }
        proof {
            assert(self@.zur_kenntnis.subrange(0, self@.zur_kenntnis.len() as int)
                =~= self@.zur_kenntnis);
        }
        let ghost alt_werte = k@;
        let ghost alt_ansicht = k.deep_view();
        texte_sortieren(&mut k);
        proof {
            assert forall|x: Seq<char>| #[trigger]
                ansicht_enthalten(k.deep_view(), x) <==> kuerzel_vorhanden(self@, x) by {
                if ansicht_enthalten(k.deep_view(), x) {
                    let m = choose|n: int| 0 <= n < k.deep_view().len() && k.deep_view()[n] == x;
                    assert(alt_werte.to_multiset().count(k@[m]) >= 1) by {
                        assert(k@.contains(k@[m]));
                    }
                    assert(alt_werte.contains(k@[m]));
                    let m2 = choose|n: int| 0 <= n < alt_werte.len() && alt_werte[n] == k@[m];
                    assert(alt_ansicht[m2] == x);
                    assert(ansicht_enthalten(alt_ansicht, x));
                }
                if kuerzel_vorhanden(self@, x) {
                    assert(ansicht_enthalten(alt_ansicht, x));
                    let m = choose|n: int| 0 <= n < alt_ansicht.len() && alt_ansicht[n] == x;
                    assert(k@.to_multiset().count(alt_werte[m]) >= 1) by {
                        assert(alt_werte.contains(alt_werte[m]));
                    }
                    assert(k@.contains(alt_werte[m]));
                    let m2 = choose|n: int| 0 <= n < k@.len() && k@[n] == alt_werte[m];
                    assert(k.deep_view()[m2] == x);
                }
            }
        }
        let mut r: Vec<String> = Vec::new();
        let mut j: usize = 0;
        while j < k.len()
            invariant
                j <= k@.len(),
                forall|a: int, b: int|
                    0 <= a < b < k@.len() ==> lex_kleiner_gleich(
                        #[trigger] k.deep_view()[a],
                        #[trigger] k.deep_view()[b],
                    ),
                forall|a: int, b: int|
                    0 <= a < b < r@.len() ==> lex_kleiner_gleich(
                        #[trigger] r.deep_view()[a],
                        #[trigger] r.deep_view()[b],
                    ),
                forall|a: int|
                    0 <= a < r@.len() - 1 ==> #[trigger] r.deep_view()[a] != r.deep_view()[a + 1],
                j > 0 ==> r@.len() > 0 && r.deep_view()[r@.len() - 1] == k.deep_view()[j - 1],
                j == 0 ==> r@.len() == 0,
                forall|x: Seq<char>| #[trigger]
                    ansicht_enthalten(k.deep_view().subrange(0, j as int), x) <==> ansicht_enthalten(
                        r.deep_view(),
                        x,
                    ),
                forall|x: Seq<char>| #[trigger]
                    ansicht_enthalten(k.deep_view(), x) <==> kuerzel_vorhanden(self@, x),
            decreases k@.len() - j,
        {
            let ghost r_alt = r.deep_view();
            let neu = if r.len() == 0 {
                true
            } else {
                !(r[r.len() - 1] == k[j])
            };
            proof {
                assert(k.deep_view()[j as int] == k@[j as int]@);
            }
            if neu {
                r.push(k[j].clone());
                proof {
                    assert(r.deep_view() =~~= r_alt.push(k.deep_view()[j as int]));
                    assert forall|a: int, b: int|
                        0 <= a < b < r@.len() implies lex_kleiner_gleich(
                        #[trigger] r.deep_view()[a],
                        #[trigger] r.deep_view()[b],
                    ) by {
                        if b == r@.len() - 1 && j > 0 {
                            if a < r_alt.len() - 1 {
                                assert(lex_kleiner_gleich(r_alt[a], r_alt[r_alt.len() - 1]));
                                assert(lex_kleiner_gleich(
                                    k.deep_view()[j - 1],
                                    k.deep_view()[j as int],
                                ));
                                lemma_lex_trans(
                                    r_alt[a],
                                    k.deep_view()[j - 1],
                                    k.deep_view()[j as int],
                                );
                            } else {
                                assert(lex_kleiner_gleich(
                                    k.deep_view()[j - 1],
                                    k.deep_view()[j as int],
                                ));
                            }
                        }
                    }
                }
            } else {
                proof {
                    assert(r.deep_view()[r@.len() - 1] == k.deep_view()[j as int]);
                }
            }
            proof {
                let vorn = k.deep_view().subrange(0, j as int);
                let jetzt = k.deep_view().subrange(0, j + 1);
                assert(jetzt =~= vorn.push(k.deep_view()[j as int]));
                assert forall|x: Seq<char>| #[trigger]
                    ansicht_enthalten(jetzt, x) <==> ansicht_enthalten(r.deep_view(), x) by {
                    if ansicht_enthalten(jetzt, x) {
                        let m = choose|n: int| 0 <= n < jetzt.len() && jetzt[n] == x;
                        if m == j {
                            assert(r.deep_view()[r@.len() - 1] == x);
                        } else {
                            assert(vorn[m] == x);
                            assert(ansicht_enthalten(vorn, x));
                            let n2 = choose|n: int| 0 <= n < r_alt.len() && r_alt[n] == x;
                            assert(r.deep_view()[n2] == x);
                        }
                    }
                    if ansicht_enthalten(r.deep_view(), x) {
                        let n = choose|n: int|
                            0 <= n < r.deep_view().len() && r.deep_view()[n] == x;
                        if n < r_alt.len() {
                            assert(r_alt[n] == x);
                            assert(ansicht_enthalten(r_alt, x));
                            assert(ansicht_enthalten(vorn, x));
                            let m = choose|m: int| 0 <= m < vorn.len() && vorn[m] == x;
                            assert(jetzt[m] == x);
                        } else {
                            assert(jetzt[j as int] == x);
                        }
                    }
                }
            }
            j = j + 1;
        }
        proof {
            assert(k.deep_view().subrange(0, k@.len() as int) =~= k.deep_view());
            assert forall|x: Seq<char>| #[trigger]
                ansicht_enthalten(r.deep_view(), x) <==> kuerzel_vorhanden(self@, x) by {
                assert(ansicht_enthalten(k.deep_view().subrange(0, j as int), x)
                    <==> ansicht_enthalten(r.deep_view(), x));
                assert(ansicht_enthalten(k.deep_view(), x) <==> kuerzel_vorhanden(self@, x));
            }
        }
        r
    }
}


/// One line of the colour configuration read as a key/value pair: the
/// text left of the first `=` is the trimmed key, the text right of it
/// is trimmed, stripped of quotation marks and read as a hex colour.
pub open spec fn farben_zeile_spec(s: Seq<char>) -> Option<(Seq<char>, (u8, u8, u8))> {
    let t = trim_spec(s);
    let e = crate::text::erstes_vorkommen(t, "="@);
    if e < t.len() {
        let schluessel = trim_spec(t.subrange(0, e));
        let wert = crate::text::streife_rechts_spec(
            crate::text::streife_links_spec(trim_spec(t.subrange(e + 1, t.len() as int)), '"'),
            '"',
        );
        match hex_farbe_spec(wert) {
            Some(farbe) => Some((schluessel, farbe)),
            None => None,
        }
    } else {
        None
    }
}

/// Reads one `key = "#rrggbb"` line of the colour configuration; lines
/// of any other shape yield nothing.
pub fn farben_zeile_parsen(zeile: &str) -> (r: Option<(String, (u8, u8, u8))>)
    ensures
        match (r, farben_zeile_spec(zeile@)) {
            (Some(paar), Some(erwartet)) => paar.0@ == erwartet.0 && paar.1 == erwartet.1,
            (None, None) => true,
            _ => false,
        },
{
    proof {
        reveal_strlit("=");
    }
    let gleich = zeichen_von("=");
    let z = zeichen_von(zeile);
    let t = getrimmt(&z);
    proof {
        crate::text::lemma_erstes_vorkommen(t@, "="@);
    }
    match crate::text::finde_ab(&t, &gleich, 0) {
        Some(e) => {
            proof {
                crate::text::lemma_vorkommen_eindeutig(t@, "="@, e as int);
            }
            let tl = t.len();
            assert(e + "="@.len() <= tl as int);
            let schluessel = getrimmt(&teilbereich(&t, 0, e));
            let wert_roh = getrimmt(&teilbereich(&t, e + 1, tl));
            let wert = crate::text::gestreift(&wert_roh, '"');
            let wert_text = text_von(&wert);
            match hex_farbe_parsen(wert_text.as_str()) {
                Some(farbe) => Some((text_von(&schluessel), farbe)),
                None => None,
            }
        },
        None => {
            proof {
                crate::text::lemma_vorkommen_eindeutig(t@, "="@, t@.len() as int);
            }
            None
        },
    }
}

} // verus!
