use mzprotokoll::codec::{art_parsen, name_kuerzel_parsen, tabellenzeile_aufteilen};
use mzprotokoll::modell::{Art, Eintrag, Person, Protokoll, Sicherheit};

fn person(name: &str, kuerzel: &str) -> Person {
    Person { name: name.to_string(), kuerzel: kuerzel.to_string(), kuerzel_manuell: !kuerzel.is_empty() }
}

fn eintrag(punkt: &str, art: Art, notiz: &str, kuemmerer: &str, bis: &str) -> Eintrag {
    Eintrag {
        punkt: punkt.to_string(),
        art,
        notiz: notiz.to_string(),
        kuemmerer: kuemmerer.to_string(),
        bis: bis.to_string(),
    }
}

fn beispiel_dokument() -> Protokoll {
    let mut d = Protokoll::neu();
    d.projekt = "Alpha".to_string();
    d.titel = "Sprint Review".to_string();
    d.datum_text = "Montag, 05.02.2026".to_string();
    d.ort = "Berlin".to_string();
    d.protokollant = person("Marcel Zimmer", "MZ");
    d.teilnehmer = vec![person("Anna Beispiel", "AB"), person("Chris Muster", "CM")];
    d.zur_kenntnis = vec![person("Doro Empfang", "DE")];
    d.ueber_meeting = "Kurzes wöchentliches Meeting".to_string();
    d.eintraege = vec![
        eintrag("Begrüßung", Art::Agenda, "Notiz mit\nzwei Zeilen", "", ""),
        eintrag("", Art::Todo, "Aufgabe erledigen", "MZ", "31.02.2026"),
    ];
    d.erstellt_am = "01.01.2026 09:00".to_string();
    d.erstellt_von = "Marcel Zimmer".to_string();
    d
}

#[test]
fn runde_reise_beispiel() {
    let d = beispiel_dokument();
    let text = d.markdown_erstellen("02.01.2026 10:00");
    let mut gelesen = Protokoll::neu();
    gelesen.markdown_parsen(&text);
    assert_eq!(gelesen.projekt, "Alpha");
    assert_eq!(gelesen.titel, "Sprint Review");
    assert_eq!(gelesen.datum_text, "Montag, 05.02.2026");
    assert_eq!(gelesen.ort, "Berlin");
    assert_eq!(gelesen.protokollant.name, "Marcel Zimmer");
    assert_eq!(gelesen.protokollant.kuerzel, "MZ");
    assert!(gelesen.protokollant.kuerzel_manuell);
    assert_eq!(gelesen.teilnehmer.len(), 2);
    assert_eq!(gelesen.teilnehmer[0].name, "Anna Beispiel");
    assert_eq!(gelesen.teilnehmer[0].kuerzel, "AB");
    assert_eq!(gelesen.teilnehmer[1].name, "Chris Muster");
    assert_eq!(gelesen.zur_kenntnis.len(), 1);
    assert_eq!(gelesen.zur_kenntnis[0].name, "Doro Empfang");
    assert_eq!(gelesen.ueber_meeting, "Kurzes wöchentliches Meeting");
    assert!(gelesen.ist_entwurf);
    assert!(!gelesen.ist_freigegeben);
    assert_eq!(gelesen.sicherheit, Sicherheit::Intern);
    assert_eq!(gelesen.eintraege.len(), 2);
    assert_eq!(gelesen.eintraege[0].punkt, "Begrüßung");
    assert_eq!(gelesen.eintraege[0].art, Art::Agenda);
    assert_eq!(gelesen.eintraege[0].notiz, "Notiz mit\nzwei Zeilen");
    assert_eq!(gelesen.eintraege[1].punkt, "");
    assert_eq!(gelesen.eintraege[1].art, Art::Todo);
    assert_eq!(gelesen.eintraege[1].kuemmerer, "MZ");
    assert_eq!(gelesen.eintraege[1].bis, "31.02.2026");
    assert_eq!(gelesen.erstellt_am, "01.01.2026 09:00");
    assert_eq!(gelesen.erstellt_von, "Marcel Zimmer");
}

#[test]
fn runde_reise_freigegeben() {
    let mut d = beispiel_dokument();
    d.freigegeben_setzen(true);
    let text = d.markdown_erstellen("02.01.2026 10:00");
    let mut gelesen = Protokoll::neu();
    gelesen.markdown_parsen(&text);
    assert!(gelesen.ist_freigegeben);
    assert!(!gelesen.ist_entwurf);
}

#[test]
fn runde_reise_klassifizierung() {
    for stufe in [
        Sicherheit::Oeffentlich,
        Sicherheit::Intern,
        Sicherheit::Vertraulich,
        Sicherheit::StrengVertraulich,
    ] {
        let mut d = beispiel_dokument();
        d.sicherheit = stufe;
        let text = d.markdown_erstellen("02.01.2026 10:00");
        let mut gelesen = Protokoll::neu();
        gelesen.markdown_parsen(&text);
        assert_eq!(gelesen.sicherheit, stufe);
    }
}

#[test]
fn runde_reise_escaptes_rohr() {
    let mut d = beispiel_dokument();
    d.eintraege = vec![eintrag("a | b", Art::Info, "Notiz | mit Rohr", "x | y", "v1 | v2")];
    let text = d.markdown_erstellen("02.01.2026 10:00");
    let mut gelesen = Protokoll::neu();
    gelesen.markdown_parsen(&text);
    assert_eq!(gelesen.eintraege.len(), 1);
    assert_eq!(gelesen.eintraege[0].punkt, "a | b");
    assert_eq!(gelesen.eintraege[0].notiz, "Notiz | mit Rohr");
    assert_eq!(gelesen.eintraege[0].kuemmerer, "x | y");
    assert_eq!(gelesen.eintraege[0].bis, "v1 | v2");
}

#[test]
fn leere_teilnehmer_ohne_abschnitt() {
    let mut d = Protokoll::neu();
    d.titel = "T".to_string();
    d.protokollant = person("Max", "M");
    let text = d.markdown_erstellen("02.01.2026 10:00");
    assert!(!text.contains("## Teilnehmer"));
    assert!(!text.contains("## Zur Kenntnis"));
}

#[test]
fn minimales_dokument_exakt() {
    let d = Protokoll::neu();
    let text = d.markdown_erstellen("01.01.2026 10:00");
    let erwartet = "# \n\n---\n\n## Über dieses Meeting\n\n## Status\n\n- [x] Entwurf\n- [ ] Freigegeben\n\n## Klassifizierung\n\n- [ ] Öffentlich\n- [x] Intern\n- [ ] Vertraulich\n- [ ] Streng vertraulich\n\n\n---\n\n**Geändert:** 01.01.2026 10:00 von \n\n*Erstellt mit MZProtokoll von Marcel Zimmer — [www.marcelzimmer.de](https://www.marcelzimmer.de) | [X @marcelzimmer](https://x.com/marcelzimmer) | [GitHub @marcelzimmer](https://github.com/marcelzimmer)*\n";
    assert_eq!(text, erwartet);
}

#[test]
fn dekodieren_ohne_zeilen_platzhalter() {
    let mut d = Protokoll::neu();
    d.markdown_parsen("# Titel\n\n## Einträge\n\nkeine Tabelle hier\n");
    assert_eq!(d.eintraege.len(), 1);
    assert_eq!(d.eintraege[0].punkt, "");
    assert_eq!(d.eintraege[0].art, Art::Leer);
    assert_eq!(d.eintraege[0].notiz, "");
}

#[test]
fn dekodieren_nur_kopf_und_trenner_platzhalter() {
    let mut d = Protokoll::neu();
    d.markdown_parsen(
        "# Titel

## Einträge

| Punkt | Art | Notiz | Kümmerer | Bis |
|-------|-----|-------|----------|-----|
",
    );
    assert_eq!(d.eintraege.len(), 1);
    assert_eq!(d.eintraege[0].punkt, "");
    assert_eq!(d.eintraege[0].art, Art::Leer);
    assert_eq!(d.eintraege[0].notiz, "");
    assert_eq!(d.eintraege[0].kuemmerer, "");
    assert_eq!(d.eintraege[0].bis, "");
}

#[test]
fn dekodieren_kurze_zeile_verworfen() {
    let mut d = Protokoll::neu();
    d.markdown_parsen(
        "## Einträge\n\n| Punkt | Art | Notiz | Kümmerer | Bis |\n|---|---|---|---|---|\n| nur | drei | zellen |\n| a | AGENDA | b | c | d |\n",
    );
    assert_eq!(d.eintraege.len(), 1);
    assert_eq!(d.eintraege[0].punkt, "a");
    assert_eq!(d.eintraege[0].art, Art::Agenda);
}

#[test]
fn dekodieren_erstellt_zeile() {
    let mut d = Protokoll::neu();
    d.markdown_parsen("# X\n\n**Erstellt:** 03.03.2026 08:00 von Anna\n");
    assert_eq!(d.erstellt_am, "03.03.2026 08:00");
    assert_eq!(d.erstellt_von, "Anna");
}

#[test]
fn dekodieren_metazeile() {
    let mut d = Protokoll::neu();
    d.markdown_parsen("**Datum:** Montag | **Ort:** Berlin\n");
    assert_eq!(d.datum_text, "Montag");
    assert_eq!(d.ort, "Berlin");
}

#[test]
fn zelle_mit_escaptem_rohr() {
    let zellen = tabellenzeile_aufteilen("| a \\| b | c |");
    assert_eq!(zellen.len(), 2);
    assert_eq!(zellen[0], "a | b");
    assert_eq!(zellen[1], "c");
}

#[test]
fn zellen_ohne_escape() {
    let zellen = tabellenzeile_aufteilen("| x | y | z |");
    assert_eq!(zellen, vec!["x".to_string(), "y".to_string(), "z".to_string()]);
}

#[test]
fn zellen_backslash_ohne_rohr() {
    let zellen = tabellenzeile_aufteilen("| a\\b | c |");
    assert_eq!(zellen[0], "a\\b");
    assert_eq!(zellen[1], "c");
}

#[test]
fn name_kuerzel_mit_klammern() {
    let (name, kuerzel) = name_kuerzel_parsen("Marcel Zimmer [MZ]");
    assert_eq!(name, "Marcel Zimmer");
    assert_eq!(kuerzel, "MZ");
}

#[test]
fn name_kuerzel_ohne_klammern() {
    let (name, kuerzel) = name_kuerzel_parsen("  Anna Beispiel  ");
    assert_eq!(name, "Anna Beispiel");
    assert_eq!(kuerzel, "");
}

#[test]
fn name_kuerzel_letzte_klammer() {
    let (name, kuerzel) = name_kuerzel_parsen("A [x] B [C]");
    assert_eq!(name, "A [x] B");
    assert_eq!(kuerzel, "C");
}

#[test]
fn art_parsen_bekannte_und_unbekannte() {
    assert_eq!(art_parsen("ABGEBROCHEN"), Art::Abgebrochen);
    assert_eq!(art_parsen("AGENDA"), Art::Agenda);
    assert_eq!(art_parsen("ENTSCHEIDUNG"), Art::Entscheidung);
    assert_eq!(art_parsen("FERTIG"), Art::Fertig);
    assert_eq!(art_parsen("IDEE"), Art::Idee);
    assert_eq!(art_parsen("INFO"), Art::Info);
    assert_eq!(art_parsen(" TODO "), Art::Todo);
    assert_eq!(art_parsen(""), Art::Leer);
    assert_eq!(art_parsen("quatsch"), Art::Leer);
}

#[test]
fn todo_zeile_verliert_punkt() {
    let mut d = Protokoll::neu();
    d.markdown_parsen(
        "## Einträge\n\n| Punkt | Art | Notiz | Kümmerer | Bis |\n|---|---|---|---|---|\n| sollte weg | TODO | n | MZ | 01.01.2026 |\n",
    );
    assert_eq!(d.eintraege.len(), 1);
    assert_eq!(d.eintraege[0].art, Art::Todo);
    assert_eq!(d.eintraege[0].punkt, "");
}

#[test]
fn br_token_wird_zeilenumbruch() {
    let mut d = Protokoll::neu();
    d.markdown_parsen(
        "## Einträge\n\n| Punkt | Art | Notiz | Kümmerer | Bis |\n|---|---|---|---|---|\n| p | INFO | eins <br> zwei | k | b |\n",
    );
    assert_eq!(d.eintraege[0].notiz, "eins\nzwei");
}
