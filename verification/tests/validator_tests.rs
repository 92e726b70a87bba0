use wenv::parser::parse;
use wenv::validator::{validate, Mode, Outcome};

fn chars(s: &str) -> Vec<char> {
    s.chars().collect()
}

#[test]
fn scenario_two_valid_one_missing() {
    let input = "C:\\a;C:\\b;C:\\missing";
    let entries = parse(input, ';');
    let found = vec![true, true, false];

    let report = validate(entries, &found, Mode::Report, ';');
    assert_eq!(report.outcomes, vec![Outcome::Valid, Outcome::Valid, Outcome::Invalid]);
    assert_eq!(report.invalid_count, 1);
    assert!(report.filtered.is_none());

    let entries = parse(input, ';');
    let report = validate(entries, &found, Mode::Filter, ';');
    assert_eq!(report.invalid_count, 1);
    assert_eq!(report.filtered, Some(chars("C:\\a;C:\\b")));
}

#[test]
fn empty_input_gives_one_invalid_entry() {
    let entries = parse("", ';');
    let found = vec![true];
    let report = validate(entries, &found, Mode::Filter, ';');
    assert_eq!(report.outcomes, vec![Outcome::Invalid]);
    assert_eq!(report.invalid_count, 1);
    assert_eq!(report.filtered, Some(chars("")));
}

#[test]
fn empty_entry_is_invalid_regardless_of_check() {
    let entries = parse("a;;b", ';');
    let found = vec![true, true, true];
    let report = validate(entries, &found, Mode::Filter, ';');
    assert_eq!(report.outcomes, vec![Outcome::Valid, Outcome::Invalid, Outcome::Valid]);
    assert_eq!(report.invalid_count, 1);
    assert_eq!(report.filtered, Some(chars("a;b")));
}

#[test]
fn all_invalid_filters_to_empty_string() {
    let entries = parse("x;y", ';');
    let total = entries.len();
    let found = vec![false, false];
    let report = validate(entries, &found, Mode::Filter, ';');
    assert_eq!(report.filtered, Some(chars("")));
    assert_eq!(report.invalid_count, total);
}

#[test]
fn report_keeps_all_entries_in_input_order() {
    let entries = parse("b;a;c;a", ';');
    let found = vec![false, true, false, true];
    let report = validate(entries, &found, Mode::Report, ';');
    assert_eq!(report.entries.len(), 4);
    let texts: Vec<Vec<char>> = report.entries.iter().map(|e| e.raw.clone()).collect();
    assert_eq!(texts, vec![chars("b"), chars("a"), chars("c"), chars("a")]);
    for (i, e) in report.entries.iter().enumerate() {
        assert_eq!(e.index, i);
    }
}

#[test]
fn invalid_count_matches_invalid_outcomes() {
    let entries = parse("p;;q;r;", ';');
    let found = vec![true, true, false, true, false];
    let report = validate(entries, &found, Mode::Report, ';');
    let by_hand = report.outcomes.iter().filter(|o| **o == Outcome::Invalid).count();
    assert_eq!(report.invalid_count, by_hand);
    assert_eq!(report.invalid_count, 3);
}

#[test]
fn validating_twice_yields_identical_reports() {
    let found = vec![true, false, true];
    let first = validate(parse("a;b;c", ';'), &found, Mode::Filter, ';');
    let second = validate(parse("a;b;c", ';'), &found, Mode::Filter, ';');
    assert_eq!(first, second);
}

#[test]
fn filtered_string_holds_exactly_the_valid_entries() {
    let entries = parse("a;b;c", ';');
    let found = vec![true, false, true];
    let report = validate(entries, &found, Mode::Filter, ';');
    assert_eq!(report.filtered, Some(chars("a;c")));
    let reparsed = parse("a;c", ';');
    let texts: Vec<Vec<char>> = reparsed.iter().map(|e| e.raw.clone()).collect();
    assert_eq!(texts, vec![chars("a"), chars("c")]);
}

#[test]
fn delimiter_is_not_hardcoded() {
    let entries = parse("u:v", ':');
    let found = vec![true, false];
    let report = validate(entries, &found, Mode::Filter, ':');
    assert_eq!(report.filtered, Some(chars("u")));
}
