use mzprotokoll::layout::{
    durchlauf, fusszeilen_text, markdown_links_extrahieren, url_umbrechen, Block,
};
use mzprotokoll::modell::{Art, Eintrag, Person, Protokoll};

#[test]
fn link_extraktion_beispiel() {
    let (text, links) = markdown_links_extrahieren("See [docs](https://example.com/x) now", 1);
    assert_eq!(text, "See docs [1] now");
    assert_eq!(links.len(), 1);
    assert_eq!(links[0].0, 1);
    assert_eq!(links[0].1, "docs");
    assert_eq!(links[0].2, "https://example.com/x");
}

#[test]
fn link_extraktion_fortlaufende_nummern() {
    let (text, links) = markdown_links_extrahieren("[a](u1) und [b](u2)", 3);
    assert_eq!(text, "a [3] und b [4]");
    assert_eq!(links.len(), 2);
    assert_eq!(links[0].0, 3);
    assert_eq!(links[1].0, 4);
}

#[test]
fn link_extraktion_literale_klammer() {
    let (text, links) = markdown_links_extrahieren("nur [eckig] ohne ziel", 1);
    assert_eq!(text, "nur [eckig] ohne ziel");
    assert!(links.is_empty());
}

#[test]
fn link_extraktion_leere_teile() {
    let (text, links) = markdown_links_extrahieren("[](url) und [label]()", 1);
    assert_eq!(text, "[](url) und [label]()");
    assert!(links.is_empty());
}

#[test]
fn url_umbruch_kurz() {
    let teile = url_umbrechen("https://example.com/x");
    assert_eq!(teile, vec!["https://example.com/x".to_string()]);
}

#[test]
fn url_umbruch_lang() {
    let lang = format!("https://example.com/{}/rest", "a".repeat(120));
    let teile = url_umbrechen(&lang);
    assert_eq!(teile.len(), 2);
    assert!(teile[0].ends_with('/'));
    assert!(teile[0].len() > 100);
    assert_eq!(format!("{}{}", teile[0], teile[1]), lang);
}

#[test]
fn fusszeile_beispiel() {
    assert_eq!(fusszeilen_text(2, 5), "Seite 2 von 5");
    assert_eq!(fusszeilen_text(10, 10), "Seite 10 von 10");
}

#[test]
fn seitenzahl_greedy() {
    let hoehen: Vec<usize> = vec![400, 400, 400];
    assert_eq!(durchlauf(&hoehen, 1000, 0), 2);
    let eine: Vec<usize> = vec![];
    assert_eq!(durchlauf(&eine, 1000, 0), 1);
    let riesig: Vec<usize> = vec![5000];
    assert_eq!(durchlauf(&riesig, 1000, 0), 2);
}

#[test]
fn zwei_durchlaeufe_fixpunkt() {
    let hoehen: Vec<usize> = vec![300, 800, 200, 900, 100];
    let erster = durchlauf(&hoehen, 1000, 0);
    let zweiter = durchlauf(&hoehen, 1000, erster);
    assert_eq!(erster, zweiter);
}

fn person(name: &str, kuerzel: &str) -> Person {
    Person { name: name.to_string(), kuerzel: kuerzel.to_string(), kuerzel_manuell: true }
}

#[test]
fn bloecke_reihenfolge_und_hoehen() {
    let mut d = Protokoll::neu();
    d.projekt = "Alpha".to_string();
    d.titel = "T".to_string();
    d.datum_text = "Montag".to_string();
    d.protokollant = person("Max", "M");
    d.eintraege = vec![
        Eintrag {
            punkt: "p".to_string(),
            art: Art::Info,
            notiz: "mit [l](u) Link".to_string(),
            kuemmerer: String::new(),
            bis: String::new(),
        },
        Eintrag {
            punkt: String::new(),
            art: Art::Todo,
            notiz: "eins\nzwei\ndrei".to_string(),
            kuemmerer: "M".to_string(),
            bis: "01.01.2027".to_string(),
        },
    ];
    let bloecke = d.bloecke_erstellen();
    match &bloecke[0] {
        Block::Absatz(t) => assert_eq!(t, "Alpha"),
        _ => panic!("erster Block ist kein Absatz"),
    }
    match &bloecke[1] {
        Block::Ueberschrift(t) => assert_eq!(t, "T"),
        _ => panic!("zweiter Block ist keine Überschrift"),
    }
    let zeilen: Vec<&Block> = bloecke
        .iter()
        .filter(|b| matches!(b, Block::Zeile(_)))
        .collect();
    assert_eq!(zeilen.len(), 2);
    if let Block::Zeile(z) = zeilen[0] {
        assert!(!z.grau);
        assert_eq!(z.max_hoehe, 400);
        assert_eq!(z.notiz, "mit l [1] Link");
    }
    if let Block::Zeile(z) = zeilen[1] {
        assert!(z.grau);
        assert_eq!(z.max_hoehe, 3 * 80 + 100);
    }
    let links: Vec<&Block> = bloecke
        .iter()
        .filter(|b| matches!(b, Block::Link(_, _, _)))
        .collect();
    assert_eq!(links.len(), 1);
    if let Block::Link(n, beschriftung, ziel) = links[0] {
        assert_eq!(*n, 1);
        assert_eq!(beschriftung, "l");
        assert_eq!(ziel, &vec!["u".to_string()]);
    }
}

#[test]
fn bloecke_ohne_eintraege_ohne_tabelle() {
    let d = Protokoll::neu();
    let bloecke = d.bloecke_erstellen();
    assert!(bloecke.iter().all(|b| !matches!(b, Block::TabellenKopf)));
    assert!(bloecke.iter().all(|b| !matches!(b, Block::Zeile(_))));
}
