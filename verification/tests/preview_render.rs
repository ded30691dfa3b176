use logfetch::preview::{
    build_preview_map, get_text_from_events, render_preview, select_preview_names, trim_text,
    validate_preview_config, ConfigurationError, WorkerPool, MAX_PREVIEW_EVENTS,
};
use logfetch::records::Record;

fn rec(timestamp: i64, text: &str, ingested_at: i64) -> Record {
    Record { timestamp, text: text.to_string(), ingested_at }
}

#[test]
fn preview_config_bounds_are_checked() {
    assert!(validate_preview_config(10, 3).is_ok());
    assert!(validate_preview_config(MAX_PREVIEW_EVENTS, 1).is_ok());
    assert!(matches!(
        validate_preview_config(10, 0),
        Err(ConfigurationError::StreamCountZero)
    ));
    assert!(matches!(
        validate_preview_config(MAX_PREVIEW_EVENTS + 1, 3),
        Err(ConfigurationError::FetchCountTooLarge)
    ));
}

#[test]
fn trim_removes_surrounding_whitespace_only() {
    assert_eq!(trim_text("  hello world \t\r\n"), "hello world");
    assert_eq!(trim_text("no-trim"), "no-trim");
    assert_eq!(trim_text(" \t "), "");
    assert_eq!(trim_text(""), "");
    assert_eq!(trim_text("inner  spaces kept"), "inner  spaces kept");
}

#[test]
fn trim_covers_unicode_whitespace() {
    // Vertical tab, form feed, next line, no-break space, the typographic
    // spaces, the separators, and the ideographic space are all trimmed,
    // exactly as str::trim removes them.
    assert_eq!(trim_text("\u{000B}\u{000C}edge\u{0085}\u{00A0}"), "edge");
    assert_eq!(trim_text("\u{1680}\u{2000}\u{200A}mid dle\u{2028}\u{2029}"), "mid dle");
    assert_eq!(trim_text("\u{202F}\u{205F}\u{3000}x"), "x");
    // The zero-width space does not carry the White_Space property and is
    // kept, again as str::trim keeps it.
    assert_eq!(trim_text(" \u{200B} "), "\u{200B}");
    for (probe, expect) in [("\u{000B}a\u{000B}", "a"), ("\u{3000} b \u{3000}", "b")] {
        assert_eq!(trim_text(probe), probe.trim());
        assert_eq!(trim_text(probe), expect);
    }
}

#[test]
fn text_is_trimmed_and_newline_joined() {
    let records = vec![rec(1, "  a line  ", 0), rec(2, "\tanother\n", 0), rec(3, "third", 0)];
    assert_eq!(get_text_from_events(&records), "a line\nanother\nthird");
    assert_eq!(get_text_from_events(&vec![]), "");
}

#[test]
fn render_sorts_one_page_by_timestamp() {
    let page = vec![rec(30, " late ", 0), rec(10, "early", 0), rec(20, "middle", 0)];
    assert_eq!(render_preview(page), "early\nmiddle\nlate");
}

#[test]
fn fan_out_selects_most_recent_names_and_keys_the_map() {
    // Ten known names, already ordered oldest to newest; a stream count of
    // three must pick exactly the three most recent, newest first.
    let names: Vec<String> = (0..10).map(|i| format!("stream-{:02}", i)).collect();
    let selected = select_preview_names(&names, 3);
    assert_eq!(selected, vec!["stream-09", "stream-08", "stream-07"]);

    let pages = vec![
        vec![rec(2, " b ", 0), rec(1, "a", 0)],
        vec![rec(5, "only", 0)],
        vec![],
    ];
    let map = build_preview_map(selected.clone(), pages);
    assert_eq!(map.len(), 3);
    let keys: Vec<&str> = map.iter().map(|(k, _)| k.as_str()).collect();
    assert_eq!(keys, vec!["stream-09", "stream-08", "stream-07"]);
    assert_eq!(map[0].1, "a\nb");
    assert_eq!(map[1].1, "only");
    assert_eq!(map[2].1, "");
}

#[test]
fn selection_takes_everything_when_fewer_names_exist() {
    let names: Vec<String> = vec!["old".to_string(), "new".to_string()];
    let selected = select_preview_names(&names, 5);
    assert_eq!(selected, vec!["new", "old"]);
}

#[test]
fn worker_pool_grants_at_most_its_budget() {
    let mut pool = WorkerPool::new(2);
    assert!(pool.try_acquire());
    assert!(pool.try_acquire());
    // The budget is spent: a third fetch may not start.
    assert!(!pool.try_acquire());
    pool.release();
    assert!(pool.try_acquire());
    assert!(!pool.try_acquire());
}

#[test]
fn zero_budget_pool_grants_nothing() {
    let mut pool = WorkerPool::new(0);
    assert!(!pool.try_acquire());
}
