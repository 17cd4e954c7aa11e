use mzprotokoll::modell::{Art, Eintrag, Person, Protokoll, Sicherheit, Theme};

#[test]
fn status_wechsel_exklusiv() {
    let mut d = Protokoll::neu();
    assert!(d.ist_entwurf && !d.ist_freigegeben);
    d.freigegeben_setzen(true);
    assert!(!d.ist_entwurf && d.ist_freigegeben);
    d.entwurf_setzen(true);
    assert!(d.ist_entwurf && !d.ist_freigegeben);
    d.entwurf_setzen(false);
    assert!(!d.ist_entwurf && d.ist_freigegeben);
    d.freigegeben_setzen(false);
    assert!(d.ist_entwurf && !d.ist_freigegeben);
}

#[test]
fn auto_kuerzel_beispiele() {
    assert_eq!(Person::auto_kuerzel("Marcel Zimmer"), "MZ");
    assert_eq!(Person::auto_kuerzel("anna beispiel"), "AB");
    assert_eq!(Person::auto_kuerzel("  Einzeln  "), "E");
    assert_eq!(Person::auto_kuerzel(""), "");
    assert_eq!(Person::auto_kuerzel("örtlich über"), "ÖÜ");
}

#[test]
fn theme_wechsel() {
    assert_eq!(Theme::Hell.next(false), Theme::Dunkel);
    assert_eq!(Theme::Dunkel.next(false), Theme::Hell);
    assert_eq!(Theme::Dunkel.next(true), Theme::Omarchy);
    assert_eq!(Theme::Omarchy.next(true), Theme::Hell);
}

#[test]
fn sicherheit_labels_und_reihenfolge() {
    let alle = Sicherheit::all();
    assert_eq!(alle.len(), 4);
    assert_eq!(alle[0].label(), "Öffentlich");
    assert_eq!(alle[1].label(), "Intern");
    assert_eq!(alle[2].label(), "Vertraulich");
    assert_eq!(alle[3].label(), "Streng vertraulich");
}

#[test]
fn art_labels_und_reihenfolge() {
    let alle = Art::all();
    assert_eq!(alle.len(), 8);
    assert_eq!(alle[0], Art::Leer);
    assert_eq!(Art::Leer.label(), "—");
    assert_eq!(Art::Leer.selected_label(), "");
    assert_eq!(Art::Todo.label(), "TODO");
    assert_eq!(Art::Todo.selected_label(), "TODO");
    assert_eq!(Art::Todo.color(), (230, 126, 34));
}

#[test]
fn leere_werte() {
    let p = Person::new();
    assert_eq!(p.name, "");
    assert_eq!(p.kuerzel, "");
    assert!(!p.kuerzel_manuell);
    let e = Eintrag::new();
    assert_eq!(e.punkt, "");
    assert_eq!(e.art, Art::Leer);
    let d = Protokoll::neu();
    assert_eq!(d.teilnehmer.len(), 1);
    assert_eq!(d.zur_kenntnis.len(), 1);
    assert_eq!(d.eintraege.len(), 1);
    assert_eq!(d.sicherheit, Sicherheit::Intern);
}
