use bundlermd::anchors::Slugger;

#[test]
fn basic_slugs() {
    let mut s = Slugger::new();
    assert_eq!(s.slug("Table of Contents"), "table-of-contents");
    assert_eq!(s.slug("File 1: src/config.json"), "file-1-srcconfigjson");
    assert_eq!(s.slug("Ünïcode Läuft"), "ünïcode-läuft");
    assert_eq!(s.slug("under_score-dash"), "under_score-dash");
}

#[test]
fn duplicates_get_suffixes() {
    let mut s = Slugger::new();
    assert_eq!(s.slug("config.json"), "configjson");
    assert_eq!(s.slug("config.json"), "configjson-1");
    assert_eq!(s.slug("config.json"), "configjson-2");
}

#[test]
fn slugger_default_starts_fresh() {
    let mut s = Slugger::default();
    assert_eq!(s.slug("Title"), "title");
    assert_eq!(s.slug("TITLE"), "title-1");
}

#[test]
fn repeated_base_counts_past_nine() {
    let mut s = Slugger::new();
    let mut last = String::new();
    for _ in 0..12 {
        last = s.slug("x");
    }
    assert_eq!(last, "x-11");
}

#[test]
fn suffixed_heading_never_repeats_an_anchor() {
    let mut s = Slugger::new();
    assert_eq!(s.slug("a"), "a");
    assert_eq!(s.slug("a"), "a-1");
    assert_eq!(s.slug("a-1"), "a-1-1");
    assert_eq!(s.slug("a"), "a-2");
}

#[test]
fn base_skips_a_taken_suffix() {
    let mut s = Slugger::new();
    assert_eq!(s.slug("b-1"), "b-1");
    assert_eq!(s.slug("b"), "b");
    assert_eq!(s.slug("b"), "b-2");
    assert_eq!(s.slug("b"), "b-3");
}

#[test]
fn many_headings_never_share_an_anchor() {
    let mut s = Slugger::new();
    let headings = ["x", "x", "x-1", "x-2", "x", "x-1-1", "X!", "x-3"];
    let got: Vec<String> = headings.iter().map(|h| s.slug(h)).collect();
    for i in 0..got.len() {
        for j in i + 1..got.len() {
            assert_ne!(got[i], got[j]);
        }
    }
}
