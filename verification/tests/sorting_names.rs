use logfetch::records::{validate_collection_name, Record};
use logfetch::sorting::{sort_names, sort_records, str_lex_cmp};

fn rec(timestamp: i64, text: &str, ingested_at: i64) -> Record {
    Record { timestamp, text: text.to_string(), ingested_at }
}

#[test]
fn records_sort_stably_by_timestamp() {
    let input = vec![
        rec(5, "e1", 0),
        rec(1, "a", 0),
        rec(5, "e2", 0),
        rec(3, "c", 0),
        rec(5, "e3", 0),
    ];
    let out = sort_records(input);
    let texts: Vec<&str> = out.iter().map(|r| r.text.as_str()).collect();
    assert_eq!(texts, vec!["a", "c", "e1", "e2", "e3"]);
}

#[test]
fn names_sort_lexicographically() {
    let names: Vec<String> =
        ["pear", "Apple", "apple", "", "applesauce", "app"].iter().map(|s| s.to_string()).collect();
    let out = sort_names(names);
    assert_eq!(out, vec!["", "Apple", "app", "apple", "applesauce", "pear"]);
}

#[test]
fn lexicographic_comparison_is_by_scalar_value() {
    assert!(str_lex_cmp("abc", "abd") < 0);
    assert!(str_lex_cmp("abc", "abc") == 0);
    assert!(str_lex_cmp("abcd", "abc") > 0);
    assert!(str_lex_cmp("", "a") < 0);
    // Upper-case letters precede lower-case ones in scalar order.
    assert!(str_lex_cmp("Z", "a") < 0);
}

#[test]
fn reserved_prefix_names_are_rejected() {
    assert!(!validate_collection_name("/starts/with/separator"));
    assert!(validate_collection_name("ordinary-stream"));
    assert!(validate_collection_name(""));
    assert!(validate_collection_name("mid/slash/ok"));
}
