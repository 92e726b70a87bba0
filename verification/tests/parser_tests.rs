use wenv::parser::{parse, join, Entry};

fn chars(s: &str) -> Vec<char> {
    s.chars().collect()
}

fn raws(entries: &[Entry]) -> Vec<Vec<char>> {
    entries.iter().map(|e| e.raw.clone()).collect()
}

#[test]
fn parse_empty_input_yields_one_empty_entry() {
    let entries = parse("", ';');
    assert_eq!(entries.len(), 1);
    assert_eq!(entries[0].raw, chars(""));
    assert_eq!(entries[0].index, 0);
}

#[test]
fn parse_splits_on_every_delimiter() {
    let entries = parse("a;;b", ';');
    assert_eq!(raws(&entries), vec![chars("a"), chars(""), chars("b")]);
    assert_eq!(entries[0].index, 0);
    assert_eq!(entries[1].index, 1);
    assert_eq!(entries[2].index, 2);
}

#[test]
fn parse_keeps_leading_and_trailing_empties() {
    let entries = parse(";a;", ';');
    assert_eq!(raws(&entries), vec![chars(""), chars("a"), chars("")]);
}

#[test]
fn parse_preserves_duplicates() {
    let entries = parse("x;x", ';');
    assert_eq!(raws(&entries), vec![chars("x"), chars("x")]);
}

#[test]
fn parse_uses_the_given_delimiter_only() {
    let entries = parse("a:b;c", ':');
    assert_eq!(raws(&entries), vec![chars("a"), chars("b;c")]);
}

#[test]
fn join_then_parse_restores_input() {
    let inputs = vec![
        "",
        ";",
        ";;",
        "a",
        "a;b",
        "a;;b",
        ";leading",
        "trailing;",
        "C:\\Windows;C:\\Windows\\system32",
        "one;two;three;four",
    ];
    for s in inputs {
        let entries = parse(s, ';');
        assert_eq!(join(&entries, ';'), chars(s));
    }
}

#[test]
fn join_of_handmade_entries() {
    let entries = vec![
        Entry { raw: chars("usr"), index: 0 },
        Entry { raw: chars(""), index: 1 },
        Entry { raw: chars("opt"), index: 2 },
    ];
    assert_eq!(join(&entries, ':'), chars("usr::opt"));
}

#[test]
fn join_of_single_entry_has_no_delimiter() {
    let entries = vec![Entry { raw: chars("solo"), index: 0 }];
    assert_eq!(join(&entries, ';'), chars("solo"));
}
