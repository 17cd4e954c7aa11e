//! The document model: a meeting protocol with header fields, people
//! lists, a classification level, a draft/released status pair and an
//! ordered list of entries.

use vstd::prelude::*;
use vstd::string::StringExecFns;

use crate::text::{gross_alle, zeichen_von, zu_gross};

verus! {

/// Classification level of a protocol, ordered from open to restricted.
#[derive(Clone, Copy, Debug, PartialEq, Eq, Structural)]
pub enum Sicherheit {
    Oeffentlich,
    Intern,
    Vertraulich,
    StrengVertraulich,
}

impl Sicherheit {
    /// The fixed display label of the level.
    pub open spec fn label_spec(self) -> Seq<char> {
        match self {
            Sicherheit::Oeffentlich => "Öffentlich"@,
            Sicherheit::Intern => "Intern"@,
            Sicherheit::Vertraulich => "Vertraulich"@,
            Sicherheit::StrengVertraulich => "Streng vertraulich"@,
        }
    }

    pub fn label(&self) -> (r: &'static str)
        ensures
            r@ == self.label_spec(),
    {
        match self {
            Sicherheit::Oeffentlich => "Öffentlich",
            Sicherheit::Intern => "Intern",
            Sicherheit::Vertraulich => "Vertraulich",
            Sicherheit::StrengVertraulich => "Streng vertraulich",
        }
    }

    /// All levels, in the fixed order in which they are listed.
    pub open spec fn alle_spec() -> Seq<Sicherheit> {
        seq![
            Sicherheit::Oeffentlich,
            Sicherheit::Intern,
            Sicherheit::Vertraulich,
            Sicherheit::StrengVertraulich,
        ]
    }

    pub fn all() -> (r: Vec<Sicherheit>)
        ensures
            r@ == Sicherheit::alle_spec(),
    {
        let r = vec![
            Sicherheit::Oeffentlich,
            Sicherheit::Intern,
            Sicherheit::Vertraulich,
            Sicherheit::StrengVertraulich,
        ];
        assert(r@ =~= Sicherheit::alle_spec());
        r
    }
}

/// Category of one protocol entry.
#[derive(Clone, Copy, Debug, PartialEq, Eq, Structural)]
pub enum Art {
    Leer,
    Abgebrochen,
    Agenda,
    Entscheidung,
    Fertig,
    Idee,
    Info,
    Todo,
}

impl Art {
    /// The fixed display label of the category.
    pub open spec fn label_spec(self) -> Seq<char> {
        match self {
            Art::Leer => "—"@,
            Art::Abgebrochen => "ABGEBROCHEN"@,
            Art::Agenda => "AGENDA"@,
            Art::Entscheidung => "ENTSCHEIDUNG"@,
            Art::Fertig => "FERTIG"@,
            Art::Idee => "IDEE"@,
            Art::Info => "INFO"@,
            Art::Todo => "TODO"@,
        }
    }

    pub fn label(&self) -> (r: &'static str)
        ensures
            r@ == self.label_spec(),
    {
        match self {
            Art::Leer => "—",
            Art::Abgebrochen => "ABGEBROCHEN",
            Art::Agenda => "AGENDA",
            Art::Entscheidung => "ENTSCHEIDUNG",
            Art::Fertig => "FERTIG",
            Art::Idee => "IDEE",
            Art::Info => "INFO",
            Art::Todo => "TODO",
        }
    }

    /// Label shown for the selected element: empty for `Leer`, so that an
    /// untouched field stays unobtrusive.
    pub open spec fn selected_label_spec(self) -> Seq<char> {
        if self == Art::Leer {
            ""@
        } else {
            self.label_spec()
        }
    }

    pub fn selected_label(&self) -> (r: &'static str)
        ensures
            r@ == self.selected_label_spec(),
    {
        match self {
            Art::Leer => "",
            Art::Abgebrochen => "ABGEBROCHEN",
            Art::Agenda => "AGENDA",
            Art::Entscheidung => "ENTSCHEIDUNG",
            Art::Fertig => "FERTIG",
            Art::Idee => "IDEE",
            Art::Info => "INFO",
            Art::Todo => "TODO",
        }
    }

    /// Highlight colour of the category as an RGB triple.
    pub fn color(&self) -> (r: (u8, u8, u8))
        ensures
            r == self.color_spec(),
    {
        match self {
            Art::Leer => (150, 150, 150),
            Art::Abgebrochen => (231, 76, 60),
            Art::Agenda => (155, 89, 182),
            Art::Entscheidung => (52, 152, 219),
            Art::Fertig => (46, 204, 113),
            Art::Idee => (241, 196, 15),
            Art::Info => (150, 150, 150),
            Art::Todo => (230, 126, 34),
        }
    }

    pub open spec fn color_spec(self) -> (u8, u8, u8) {
        match self {
            Art::Leer => (150u8, 150u8, 150u8),
            Art::Abgebrochen => (231u8, 76u8, 60u8),
            Art::Agenda => (155u8, 89u8, 182u8),
            Art::Entscheidung => (52u8, 152u8, 219u8),
            Art::Fertig => (46u8, 204u8, 113u8),
            Art::Idee => (241u8, 196u8, 15u8),
            Art::Info => (150u8, 150u8, 150u8),
            Art::Todo => (230u8, 126u8, 34u8),
        }
    }

    /// All categories, in the fixed order in which they are listed.
    pub open spec fn alle_spec() -> Seq<Art> {
        seq![
            Art::Leer,
            Art::Abgebrochen,
            Art::Agenda,
            Art::Entscheidung,
            Art::Fertig,
            Art::Idee,
            Art::Info,
            Art::Todo,
        ]
    }

    pub fn all() -> (r: Vec<Art>)
        ensures
            r@ == Art::alle_spec(),
    {
        let r = vec![
            Art::Leer,
            Art::Abgebrochen,
            Art::Agenda,
            Art::Entscheidung,
            Art::Fertig,
            Art::Idee,
            Art::Info,
            Art::Todo,
        ];
        assert(r@ =~= Art::alle_spec());
        r
    }
}

/// Mathematical value of a `Person`.
#[verifier::ext_equal]
pub ghost struct PersonAnsicht {
    pub name: Seq<char>,
    pub kuerzel: Seq<char>,
    pub kuerzel_manuell: bool,
}

impl PersonAnsicht {
    /// The empty person used as a list placeholder.
    pub open spec fn leer() -> PersonAnsicht {
        PersonAnsicht { name: Seq::empty(), kuerzel: Seq::empty(), kuerzel_manuell: false }
    }
}

/// A person taking part in the meeting: the protocol author, a
/// participant, or a recipient for information.
pub struct Person {
    /// Full name.
    pub name: String,
    /// Initials code used as the owner of action items.
    pub kuerzel: String,
    /// True when the code was entered by hand and must not be derived
    /// from the name any more.
    pub kuerzel_manuell: bool,
}

impl View for Person {
    type V = PersonAnsicht;

    open spec fn view(&self) -> PersonAnsicht {
        PersonAnsicht {
            name: self.name@,
            kuerzel: self.kuerzel@,
            kuerzel_manuell: self.kuerzel_manuell,
        }
    }
}

impl DeepView for Person {
    type V = PersonAnsicht;

    open spec fn deep_view(&self) -> PersonAnsicht {
        self.view()
    }
}

impl Person {
    /// Creates an empty person.
    pub fn new() -> (r: Person)
        ensures
            r@ == PersonAnsicht::leer(),
    {
        Person { name: String::new(), kuerzel: String::new(), kuerzel_manuell: false }
    }

    /// Derives an initials code from the name: the first character of each
    /// whitespace-separated word, mapped to upper case.
    pub fn auto_kuerzel(name: &str) -> (r: String)
        ensures
            r@ == gross_alle(crate::text::wortanfaenge(name@, true)),
    {
        let z = zeichen_von(name);
        let mut erste: Vec<char> = Vec::new();
        let mut am_anfang = true;
        let mut i: usize = 0;
        proof {
            assert(z@.subrange(0, z@.len() as int) =~= z@);
            assert(Seq::<char>::empty() + crate::text::wortanfaenge(z@, true)
                =~= crate::text::wortanfaenge(z@, true));
        }
        while i < z.len()
            invariant
                i <= z@.len(),
                z@ == name@,
                crate::text::wortanfaenge(name@, true) == erste@ + crate::text::wortanfaenge(
                    z@.subrange(i as int, z@.len() as int),
                    am_anfang,
                ),
            decreases z@.len() - i,
        {
            let ghost rest = z@.subrange(i as int, z@.len() as int);
            proof {
                assert(rest.drop_first() =~= z@.subrange(i + 1, z@.len() as int));
            }
            let c = z[i];
            if crate::text::ist_leerraum_zeichen(c) {
                am_anfang = true;
            } else {
                if am_anfang {
                    proof {
                        assert(erste@ + (seq![rest[0]] + crate::text::wortanfaenge(
                            rest.drop_first(),
                            false,
                        )) =~= erste@.push(rest[0]) + crate::text::wortanfaenge(
                            rest.drop_first(),
                            false,
                        ));
                    }
                    erste.push(c);
                }
                am_anfang = false;
            }
            i = i + 1;
        }
        proof {
            assert(z@.subrange(z@.len() as int, z@.len() as int) =~= Seq::<char>::empty());
            assert(erste@ + Seq::<char>::empty() =~= erste@);
        }
        let mut r = String::new();
        let mut j: usize = 0;
        while j < erste.len()
            invariant
                j <= erste@.len(),
                r@ == gross_alle(erste@.subrange(0, j as int)),
            decreases erste@.len() - j,
        {
            let gross = zu_gross(erste[j]);
            r.append(gross.as_str());
            proof {
                crate::text::lemma_gross_alle_anhaengen(erste@.subrange(0, j as int), erste@[j as int]);
                assert(erste@.subrange(0, j + 1) =~= erste@.subrange(0, j as int).push(
                    erste@[j as int],
                ));
            }
            j = j + 1;
        }
        assert(erste@.subrange(0, erste@.len() as int) =~= erste@);
        r
    }
}

/// Mathematical value of an `Eintrag`.
#[verifier::ext_equal]
pub ghost struct EintragAnsicht {
    pub punkt: Seq<char>,
    pub art: Art,
    pub notiz: Seq<char>,
    pub kuemmerer: Seq<char>,
    pub bis: Seq<char>,
}

impl EintragAnsicht {
    /// The empty entry used as a list placeholder.
    pub open spec fn leer() -> EintragAnsicht {
        EintragAnsicht {
            punkt: Seq::empty(),
            art: Art::Leer,
            notiz: Seq::empty(),
            kuemmerer: Seq::empty(),
            bis: Seq::empty(),
        }
    }

    /// An entry is kept by the encoder only if it carries any content.
    pub open spec fn ist_leer(self) -> bool {
        self.punkt.len() == 0 && self.art == Art::Leer && self.notiz.len() == 0
    }
}

/// One row of the protocol's entries table.
pub struct Eintrag {
    /// Short label of the entry; kept empty for action items.
    pub punkt: String,
    /// Category of the entry.
    pub art: Art,
    /// Free-text note; may span lines and contain inline links.
    pub notiz: String,
    /// Initials code of the responsible person; meaningful for action items.
    pub kuemmerer: String,
    /// Due date as free text in day.month.year notation.
    pub bis: String,
}

impl View for Eintrag {
    type V = EintragAnsicht;

    open spec fn view(&self) -> EintragAnsicht {
        EintragAnsicht {
            punkt: self.punkt@,
            art: self.art,
            notiz: self.notiz@,
            kuemmerer: self.kuemmerer@,
            bis: self.bis@,
        }
    }
}

impl DeepView for Eintrag {
    type V = EintragAnsicht;

    open spec fn deep_view(&self) -> EintragAnsicht {
        self.view()
    }
}

impl Eintrag {
    /// Creates an empty entry.
    pub fn new() -> (r: Eintrag)
        ensures
            r@ == EintragAnsicht::leer(),
    {
        Eintrag {
            punkt: String::new(),
            art: Art::Leer,
            notiz: String::new(),
            kuemmerer: String::new(),
            bis: String::new(),
        }
    }
}

/// Colour scheme of the surrounding application.
#[derive(Clone, Copy, Debug, PartialEq, Eq, Structural)]
pub enum Theme {
    Hell,
    Dunkel,
    Omarchy,
}

impl Theme {
    pub open spec fn next_spec(self, has_omarchy: bool) -> Theme {
        match self {
            Theme::Hell => Theme::Dunkel,
            Theme::Dunkel => if has_omarchy {
                Theme::Omarchy
            } else {
                Theme::Hell
            },
            Theme::Omarchy => Theme::Hell,
        }
    }

    /// Cycles to the next theme; the third theme is offered only when its
    /// colour configuration was found.
    pub fn next(self, has_omarchy: bool) -> (r: Theme)
        ensures
            r == self.next_spec(has_omarchy),
    {
        match self {
            Theme::Hell => Theme::Dunkel,
            Theme::Dunkel => if has_omarchy {
                Theme::Omarchy
            } else {
                Theme::Hell
            },
            Theme::Omarchy => Theme::Hell,
        }
    }
}

/// Mathematical value of a `Protokoll`.
#[verifier::ext_equal]
pub ghost struct ProtokollAnsicht {
    pub projekt: Seq<char>,
    pub titel: Seq<char>,
    pub datum_text: Seq<char>,
    pub ort: Seq<char>,
    pub protokollant: PersonAnsicht,
    pub teilnehmer: Seq<PersonAnsicht>,
    pub zur_kenntnis: Seq<PersonAnsicht>,
    pub ueber_meeting: Seq<char>,
    pub ist_entwurf: bool,
    pub ist_freigegeben: bool,
    pub sicherheit: Sicherheit,
    pub eintraege: Seq<EintragAnsicht>,
    pub erstellt_am: Seq<char>,
    pub erstellt_von: Seq<char>,
}

impl ProtokollAnsicht {
    /// The state every document starts from and returns to on reset.
    pub open spec fn leer() -> ProtokollAnsicht {
        ProtokollAnsicht {
            projekt: Seq::empty(),
            titel: Seq::empty(),
            datum_text: Seq::empty(),
            ort: Seq::empty(),
            protokollant: PersonAnsicht::leer(),
            teilnehmer: seq![PersonAnsicht::leer()],
            zur_kenntnis: seq![PersonAnsicht::leer()],
            ueber_meeting: Seq::empty(),
            ist_entwurf: true,
            ist_freigegeben: false,
            sicherheit: Sicherheit::Intern,
            eintraege: seq![EintragAnsicht::leer()],
            erstellt_am: Seq::empty(),
            erstellt_von: Seq::empty(),
        }
    }

    /// Structural invariant of every document: each list holds at least a
    /// placeholder, exactly one of draft/released is set, and action items
    /// carry no label.
    pub open spec fn wohlgeformt(self) -> bool {
        &&& self.teilnehmer.len() >= 1
        &&& self.zur_kenntnis.len() >= 1
        &&& self.eintraege.len() >= 1
        &&& self.ist_entwurf != self.ist_freigegeben
        &&& forall|i: int|
            0 <= i < self.eintraege.len() && #[trigger] self.eintraege[i].art == Art::Todo
                ==> self.eintraege[i].punkt.len() == 0
    }
}

/// The document aggregate: one meeting protocol.
pub struct Protokoll {
    /// Optional project name shown above the title.
    pub projekt: String,
    /// Title of the meeting.
    pub titel: String,
    /// Date as free text.
    pub datum_text: String,
    /// Location of the meeting.
    pub ort: String,
    /// The person writing the protocol; required for saving and export.
    pub protokollant: Person,
    /// Participants of the meeting.
    pub teilnehmer: Vec<Person>,
    /// People receiving the protocol for information.
    pub zur_kenntnis: Vec<Person>,
    /// Free-text description of the meeting.
    pub ueber_meeting: String,
    /// True while the protocol is a draft.
    pub ist_entwurf: bool,
    /// True once the protocol is released.
    pub ist_freigegeben: bool,
    /// Classification level.
    pub sicherheit: Sicherheit,
    /// The rows of the entries table.
    pub eintraege: Vec<Eintrag>,
    /// Creation timestamp, set once on the first successful save.
    pub erstellt_am: String,
    /// Name of the creator, recorded together with the timestamp.
    pub erstellt_von: String,
}

impl View for Protokoll {
    type V = ProtokollAnsicht;

    open spec fn view(&self) -> ProtokollAnsicht {
        ProtokollAnsicht {
            projekt: self.projekt@,
            titel: self.titel@,
            datum_text: self.datum_text@,
            ort: self.ort@,
            protokollant: self.protokollant@,
            teilnehmer: self.teilnehmer.deep_view(),
            zur_kenntnis: self.zur_kenntnis.deep_view(),
            ueber_meeting: self.ueber_meeting@,
            ist_entwurf: self.ist_entwurf,
            ist_freigegeben: self.ist_freigegeben,
            sicherheit: self.sicherheit,
            eintraege: self.eintraege.deep_view(),
            erstellt_am: self.erstellt_am@,
            erstellt_von: self.erstellt_von@,
        }
    }
}

impl Protokoll {
    /// Creates an empty document in its default state.
    pub fn neu() -> (r: Protokoll)
        ensures
            r@ == ProtokollAnsicht::leer(),
            r@.wohlgeformt(),
    {
        let r = Protokoll {
            projekt: String::new(),
            titel: String::new(),
            datum_text: String::new(),
            ort: String::new(),
            protokollant: Person::new(),
            teilnehmer: vec![Person::new()],
            zur_kenntnis: vec![Person::new()],
            ueber_meeting: String::new(),
            ist_entwurf: true,
            ist_freigegeben: false,
            sicherheit: Sicherheit::Intern,
            eintraege: vec![Eintrag::new()],
            erstellt_am: String::new(),
            erstellt_von: String::new(),
        };
        proof {
            assert(r.teilnehmer.deep_view() =~= seq![PersonAnsicht::leer()]);
            assert(r.zur_kenntnis.deep_view() =~= seq![PersonAnsicht::leer()]);
            assert(r.eintraege.deep_view() =~= seq![EintragAnsicht::leer()]);
        }
        r
    }

    /// Sets or clears the draft flag. Setting it clears the released
    /// flag; clearing it sets the released flag, so that exactly one of
    /// the two is ever true.
    pub fn entwurf_setzen(&mut self, wert: bool)
        ensures
            final(self).ist_entwurf == wert,
            final(self).ist_freigegeben == !wert,
            final(self)@ == (ProtokollAnsicht {
                ist_entwurf: wert,
                ist_freigegeben: !wert,
                ..old(self)@
            }),
    {
        self.ist_entwurf = wert;
        self.ist_freigegeben = !wert;
    }

    /// Sets or clears the released flag, keeping the two status flags
    /// mutually exclusive.
    pub fn freigegeben_setzen(&mut self, wert: bool)
        ensures
            final(self).ist_freigegeben == wert,
            final(self).ist_entwurf == !wert,
            final(self)@ == (ProtokollAnsicht {
                ist_entwurf: !wert,
                ist_freigegeben: wert,
                ..old(self)@
            }),
    {
        self.ist_freigegeben = wert;
        self.ist_entwurf = !wert;
    }
}

/// The two status flags are never simultaneously true after a toggle,
/// whichever flag is toggled and whatever the state was before.
pub proof fn lemma_status_exklusiv(vorher: ProtokollAnsicht, nachher: ProtokollAnsicht, wert: bool)
    requires
        nachher == (ProtokollAnsicht { ist_entwurf: wert, ist_freigegeben: !wert, ..vorher })
            || nachher == (ProtokollAnsicht { ist_entwurf: !wert, ist_freigegeben: wert, ..vorher }),
    ensures
        !(nachher.ist_entwurf && nachher.ist_freigegeben),
        nachher.ist_entwurf || nachher.ist_freigegeben,
{
}

} // verus!
