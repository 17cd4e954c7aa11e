use mzprotokoll::ablauf::{farben_zeile_parsen, hex_farbe_parsen, ExportAktion, SpeicherAktion};
use mzprotokoll::datum::bis_datum_gueltig;
use mzprotokoll::modell::{Person, Protokoll};

fn person(name: &str, kuerzel: &str) -> Person {
    Person { name: name.to_string(), kuerzel: kuerzel.to_string(), kuerzel_manuell: true }
}

#[test]
fn dateinamen_beispiel() {
    let mut d = Protokoll::neu();
    d.titel = "Weekly Sync 2!".to_string();
    assert_eq!(d.dateinamen_erstellen("2026-02-05"), "MZProtokoll_WeeklySync__2026-02-05.md");
    assert_eq!(
        d.pdf_dateinamen_erstellen("2026-02-05"),
        "MZProtokoll_WeeklySync__2026-02-05.pdf"
    );
}

#[test]
fn pdf_titel_beispiele() {
    let mut d = Protokoll::neu();
    assert_eq!(d.pdf_titel(), "MZProtokoll");
    d.titel = "Review".to_string();
    assert_eq!(d.pdf_titel(), "Review — MZProtokoll von Marcel Zimmer (www.marcelzimmer.de)");
}

#[test]
fn hex_farben() {
    assert_eq!(hex_farbe_parsen("#1a2b3c"), Some((0x1a, 0x2b, 0x3c)));
    assert_eq!(hex_farbe_parsen("1A2B3C"), Some((0x1a, 0x2b, 0x3c)));
    assert_eq!(hex_farbe_parsen("  #ffffff "), Some((255, 255, 255)));
    assert_eq!(hex_farbe_parsen("#fff"), None);
    assert_eq!(hex_farbe_parsen("#1a2b3g"), None);
    assert_eq!(hex_farbe_parsen(""), None);
}

#[test]
fn farben_zeilen() {
    assert_eq!(
        farben_zeile_parsen("color2 = \"#aabbcc\""),
        Some(("color2".to_string(), (0xaa, 0xbb, 0xcc)))
    );
    assert_eq!(farben_zeile_parsen("kein gleichheitszeichen"), None);
    assert_eq!(farben_zeile_parsen("key = \"keinefarbe\""), None);
}

#[test]
fn sortierung_leere_ans_ende() {
    let mut d = Protokoll::neu();
    d.teilnehmer = vec![person("", ""), person("zoe", "Z"), person("Anna", "A")];
    d.sort_personen();
    assert_eq!(d.teilnehmer[0].name, "Anna");
    assert_eq!(d.teilnehmer[1].name, "zoe");
    assert_eq!(d.teilnehmer[2].name, "");
}

#[test]
fn alle_kuerzel_sortiert_ohne_doppelte() {
    let mut d = Protokoll::neu();
    d.protokollant = person("M", "MZ");
    d.teilnehmer = vec![person("a", "AB"), person("b", "MZ"), person("c", "")];
    d.zur_kenntnis = vec![person("d", "CD")];
    let k = d.alle_kuerzel();
    assert_eq!(k, vec!["AB".to_string(), "CD".to_string(), "MZ".to_string()]);
}

#[test]
fn speichern_ohne_autor_hinweis() {
    let mut d = Protokoll::neu();
    let aktion = d.speichern_vorbereiten(false, "01.01.2026 10:00", "2026-01-01");
    assert!(matches!(aktion, SpeicherAktion::Pflichtfeldhinweis));
    assert_eq!(d.erstellt_am, "");
}

#[test]
fn speichern_setzt_erstellt_nur_einmal() {
    let mut d = Protokoll::neu();
    d.titel = "T".to_string();
    d.protokollant = person("Max", "M");
    let erste = d.speichern_vorbereiten(false, "01.01.2026 10:00", "2026-01-01");
    match erste {
        SpeicherAktion::DialogSpeichern(name, inhalt) => {
            assert_eq!(name, "MZProtokoll_T__2026-01-01.md");
            assert!(inhalt.contains("**Erstellt:** 01.01.2026 10:00 von Max"));
        }
        _ => panic!("erwartet wurde ein Speichern-Dialog"),
    }
    assert_eq!(d.erstellt_am, "01.01.2026 10:00");
    let zweite = d.speichern_vorbereiten(true, "02.02.2026 11:00", "2026-02-02");
    match zweite {
        SpeicherAktion::Schreiben(inhalt) => {
            assert!(inhalt.contains("**Erstellt:** 01.01.2026 10:00 von Max"));
            assert!(inhalt.contains("**Geändert:** 02.02.2026 11:00 von Max"));
        }
        _ => panic!("erwartet wurde direktes Schreiben"),
    }
    assert_eq!(d.erstellt_am, "01.01.2026 10:00");
}

#[test]
fn export_vorbereitung() {
    let mut d = Protokoll::neu();
    let keine = d.pdf_exportieren_vorbereiten(false, "01.01.2026 10:00", "2026-01-01");
    assert!(matches!(keine, ExportAktion::Pflichtfeldhinweis));
    d.titel = "T".to_string();
    d.protokollant = person("Max", "M");
    let ohne_pfad = d.pdf_exportieren_vorbereiten(false, "01.01.2026 10:00", "2026-01-01");
    match ohne_pfad {
        ExportAktion::Fortfahren(inhalt, name) => {
            assert!(inhalt.is_none());
            assert_eq!(name, "MZProtokoll_T__2026-01-01.pdf");
        }
        _ => panic!("erwartet wurde Fortfahren"),
    }
    assert_eq!(d.erstellt_am, "");
    let mit_pfad = d.pdf_exportieren_vorbereiten(true, "01.01.2026 10:00", "2026-01-01");
    match mit_pfad {
        ExportAktion::Fortfahren(inhalt, _) => {
            assert!(inhalt.is_some());
        }
        _ => panic!("erwartet wurde Fortfahren"),
    }
    assert_eq!(d.erstellt_am, "01.01.2026 10:00");
}

#[test]
fn laden_ersetzt_und_sortiert() {
    let mut d = Protokoll::neu();
    d.laden_uebernehmen(
        "# Geladen\n\n## Teilnehmer\n\n- zoe [Z]\n- Anna [A]\n\n## Status\n\n- [ ] Entwurf\n- [x] Freigegeben\n",
    );
    assert_eq!(d.titel, "Geladen");
    assert_eq!(d.teilnehmer[0].name, "Anna");
    assert_eq!(d.teilnehmer[1].name, "zoe");
    assert!(d.ist_freigegeben && !d.ist_entwurf);
}

#[test]
fn ungueltiges_datum_markiert_aber_gespeichert() {
    assert!(!bis_datum_gueltig("31.02.2026"));
    assert!(bis_datum_gueltig("28.02.2026"));
    assert!(bis_datum_gueltig("29.02.2024"));
    assert!(!bis_datum_gueltig("29.02.2023"));
    assert!(bis_datum_gueltig(""));
    assert!(!bis_datum_gueltig("quatsch"));
}
