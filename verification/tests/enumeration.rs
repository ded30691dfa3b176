use logfetch::enumerate::{list_all_from_pages, EnumerationError, Enumerator, NamesPage};

fn npage(names: &[&str], next: Option<&str>) -> NamesPage {
    NamesPage {
        names: names.iter().map(|s| s.to_string()).collect(),
        next_token: next.map(|s| s.to_string()),
    }
}

#[test]
fn names_are_collected_and_sorted() {
    let pages = vec![
        npage(&["delta", "alpha"], Some("t1")),
        npage(&["charlie", "bravo"], None),
    ];
    let out = list_all_from_pages(pages, 100).unwrap();
    assert_eq!(out, vec!["alpha", "bravo", "charlie", "delta"]);
}

#[test]
fn single_page_without_token_finishes() {
    let pages = vec![npage(&["b", "a"], None)];
    let out = list_all_from_pages(pages, 1).unwrap();
    assert_eq!(out, vec!["a", "b"]);
}

#[test]
fn ceiling_fires_at_exactly_the_bound() {
    // Every response carries a token; with a ceiling of 3 the failure must
    // come after the third page, not sooner.
    let pages = vec![
        npage(&["a"], Some("t1")),
        npage(&["b"], Some("t2")),
        npage(&["c"], Some("t3")),
        npage(&["d"], Some("t4")),
    ];
    let r = list_all_from_pages(pages, 3);
    assert!(matches!(r, Err(EnumerationError::IterationCeiling)));

    // The same run with the token absent on the third page stays within the
    // bound and succeeds: the ceiling never fires early.
    let pages = vec![
        npage(&["a"], Some("t1")),
        npage(&["b"], Some("t2")),
        npage(&["c"], None),
    ];
    let out = list_all_from_pages(pages, 3).unwrap();
    assert_eq!(out, vec!["a", "b", "c"]);
}

#[test]
fn zero_ceiling_fails_at_once() {
    let pages = vec![npage(&["a"], None)];
    let r = list_all_from_pages(pages, 0);
    assert!(matches!(r, Err(EnumerationError::IterationCeiling)));
}

#[test]
fn truncated_input_is_reported() {
    let pages = vec![npage(&["a"], Some("t1"))];
    let r = list_all_from_pages(pages, 100);
    assert!(matches!(r, Err(EnumerationError::TruncatedInput)));
}

#[test]
fn enumerator_counts_its_steps() {
    let mut engine = Enumerator::new(2);
    let r = engine.step(npage(&["a"], Some("t1")));
    assert!(r.is_ok());
    assert!(!engine.done);
    // Second response still carries a token: the ceiling of 2 fires here.
    let r = engine.step(npage(&["b"], Some("t2")));
    assert!(matches!(r, Err(EnumerationError::IterationCeiling)));
}

#[test]
fn duplicate_names_survive_sorting() {
    let pages = vec![npage(&["s2", "s1", "s2"], None)];
    let out = list_all_from_pages(pages, 10).unwrap();
    assert_eq!(out, vec!["s1", "s2", "s2"]);
}
