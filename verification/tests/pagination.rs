use logfetch::paginate::{retrieve_all_from_pages, Paginator};
use logfetch::records::{Page, Record};

fn rec(timestamp: i64, text: &str, ingested_at: i64) -> Record {
    Record { timestamp, text: text.to_string(), ingested_at }
}

fn page(records: Vec<Record>, forward: &str, backward: &str) -> Page {
    Page {
        records,
        forward_token: forward.to_string(),
        backward_token: backward.to_string(),
    }
}

#[test]
fn increasing_then_repeating_tokens_terminate_sorted() {
    // Forward tokens advance twice, then the third page repeats the token it
    // was requested with; no empty page ever arrives.
    let pages = vec![
        page(vec![rec(30, "c", 0), rec(10, "a", 0)], "t1", "b1"),
        page(vec![rec(20, "b", 0)], "t2", "b2"),
        page(vec![rec(5, "z", 0)], "t2", "b3"),
    ];
    let out = retrieve_all_from_pages(pages).expect("token repetition must terminate retrieval");
    let texts: Vec<&str> = out.iter().map(|r| r.text.as_str()).collect();
    assert_eq!(texts, vec!["z", "a", "b", "c"]);
    let stamps: Vec<i64> = out.iter().map(|r| r.timestamp).collect();
    assert_eq!(stamps, vec![5, 10, 20, 30]);
}

#[test]
fn equal_timestamps_keep_fetch_order() {
    // All four records tie on timestamp; the stable sort must keep the
    // order in which the pages delivered them.
    let pages = vec![
        page(vec![rec(7, "first", 1), rec(7, "second", 2)], "t1", "b1"),
        page(vec![rec(7, "third", 3), rec(7, "fourth", 4)], "t1", "b2"),
    ];
    let out = retrieve_all_from_pages(pages).unwrap();
    let texts: Vec<&str> = out.iter().map(|r| r.text.as_str()).collect();
    assert_eq!(texts, vec!["first", "second", "third", "fourth"]);
}

#[test]
fn empty_first_page_yields_empty_result() {
    let pages = vec![page(vec![], "t1", "b1")];
    let out = retrieve_all_from_pages(pages).expect("an empty page is a clean termination");
    assert!(out.is_empty());
}

#[test]
fn empty_page_after_records_terminates() {
    let pages = vec![
        page(vec![rec(2, "b", 0), rec(1, "a", 0)], "t1", "b1"),
        page(vec![], "t2", "b2"),
    ];
    let out = retrieve_all_from_pages(pages).unwrap();
    let texts: Vec<&str> = out.iter().map(|r| r.text.as_str()).collect();
    assert_eq!(texts, vec!["a", "b"]);
}

#[test]
fn immediate_token_repeat_terminates() {
    // The second page repeats the first page's forward token at once.
    let pages = vec![
        page(vec![rec(1, "a", 0)], "same", "b1"),
        page(vec![rec(2, "b", 0)], "same", "b2"),
    ];
    let out = retrieve_all_from_pages(pages).expect("immediate repetition must terminate");
    assert_eq!(out.len(), 2);
}

#[test]
fn empty_string_token_is_a_real_token() {
    // An empty-string forward token takes part in the equality check like
    // any other token: two empty tokens in a row terminate.
    let pages = vec![
        page(vec![rec(1, "a", 0)], "", "b1"),
        page(vec![rec(2, "b", 0)], "", "b2"),
        page(vec![rec(3, "never fetched", 0)], "x", "b3"),
    ];
    let out = retrieve_all_from_pages(pages).unwrap();
    assert_eq!(out.len(), 2);
}

#[test]
fn exhausted_input_without_termination_is_none() {
    let pages = vec![
        page(vec![rec(1, "a", 0)], "t1", "b1"),
        page(vec![rec(2, "b", 0)], "t2", "b2"),
    ];
    assert!(retrieve_all_from_pages(pages).is_none());
}

#[test]
fn paginator_steps_and_finishes() {
    let mut engine = Paginator::new();
    assert!(!engine.done);
    engine.step(page(vec![rec(9, " x ", 0), rec(3, "y", 0)], "t1", "b1"));
    assert!(!engine.done);
    engine.step(page(vec![], "t2", "b2"));
    assert!(engine.done);
    let out = engine.into_sorted_records();
    let texts: Vec<&str> = out.iter().map(|r| r.text.as_str()).collect();
    assert_eq!(texts, vec!["y", " x "]);
}
