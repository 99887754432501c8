use ball_sort::game_state::{GameState, MAX_TUBES};
use ball_sort::loader::{parse_count, LoadError};
use ball_sort::tube::Tube;

fn lines(text: &[&str]) -> Vec<String> {
    text.iter().map(|l| l.to_string()).collect()
}

fn error_of(text: &[&str]) -> LoadError {
    match GameState::new_from_lines(&lines(text)) {
        Ok(_) => panic!("the description was accepted"),
        Err(e) => e,
    }
}

#[test]
fn count_is_decimal_digits() {
    assert_eq!(parse_count("0"), Some(0));
    assert_eq!(parse_count("2"), Some(2));
    assert_eq!(parse_count("007"), Some(7));
    assert_eq!(parse_count("1234567890"), Some(1234567890));
    assert_eq!(parse_count("4294967295"), Some(u32::MAX));
}

#[test]
fn count_may_have_a_plus_sign() {
    assert_eq!(parse_count("+12"), Some(12));
    assert_eq!(parse_count("+"), None);
    assert_eq!(parse_count("++1"), None);
    assert_eq!(parse_count("1+"), None);
}

#[test]
fn count_rejects_what_is_no_number() {
    assert_eq!(parse_count(""), None);
    assert_eq!(parse_count("-1"), None);
    assert_eq!(parse_count("-"), None);
    assert_eq!(parse_count(" 1"), None);
    assert_eq!(parse_count("1 "), None);
    assert_eq!(parse_count("1a"), None);
    assert_eq!(parse_count("1.0"), None);
    assert_eq!(parse_count("\u{662}"), None);
    assert_eq!(parse_count("1\u{e9}"), None);
}

#[test]
fn count_rejects_what_does_not_fit() {
    assert_eq!(parse_count("4294967296"), None);
    assert_eq!(parse_count("99999999999999999999999999"), None);
    assert_eq!(parse_count("00000000000000000000000001"), Some(1));
}

#[test]
fn count_agrees_with_the_standard_parser() {
    for text in ["0", "+0", "42", "+42", "0042", "", "+", "-", "-3", "4294967295", "4294967296", "3x"]
    {
        assert_eq!(parse_count(text), u32::from_str_radix(text, 10).ok(), "{:?}", text);
    }
}

#[test]
fn description_gives_full_tubes_then_empty_ones() {
    let gs = GameState::new_from_lines(&lines(&["2", "aaab", "bbba"])).unwrap();
    assert_eq!(gs.tube_count(), 4);
    assert!(gs.0[0] == Tube::new_from_str("aaab"));
    assert!(gs.0[1] == Tube::new_from_str("bbba"));
    assert!(gs.0[2].is_empty());
    assert!(gs.0[3].is_empty());
}

#[test]
fn description_of_nothing_but_a_count() {
    let gs = GameState::new_from_lines(&lines(&["3"])).unwrap();
    assert_eq!(gs.tube_count(), 3);
    assert!(gs.is_solved());
    let gs = GameState::new_from_lines(&lines(&["0"])).unwrap();
    assert_eq!(gs.tube_count(), 0);
}

#[test]
fn description_without_lines_misses_its_count() {
    assert_eq!(error_of(&[]), LoadError::MissingCount);
}

#[test]
fn description_with_a_bad_count() {
    assert_eq!(error_of(&["two", "aaaa"]), LoadError::BadCount);
    assert_eq!(error_of(&["", "aaaa"]), LoadError::BadCount);
    assert_eq!(error_of(&["aaaa", "1"]), LoadError::BadCount);
    // the count is looked at before the tubes
    assert_eq!(error_of(&["x", "not a tube"]), LoadError::BadCount);
}

#[test]
fn description_with_a_bad_tube_names_the_first() {
    assert_eq!(error_of(&["1", "aaaa", "bbb", "c"]), LoadError::BadTube(2));
    assert_eq!(error_of(&["1", "aaaaa"]), LoadError::BadTube(1));
    assert_eq!(error_of(&["1", "aa!a"]), LoadError::BadTube(1));
    assert_eq!(error_of(&["1", "aaaa", ""]), LoadError::BadTube(2));
}

#[test]
fn description_with_too_many_tubes() {
    assert_eq!(error_of(&["257"]), LoadError::TooManyTubes);
    assert_eq!(error_of(&["256", "aaaa"]), LoadError::TooManyTubes);
    assert_eq!(error_of(&["4294967295", "aaaa"]), LoadError::TooManyTubes);
    // a bad tube is reported before the number of tubes is
    assert_eq!(error_of(&["300", "aaa"]), LoadError::BadTube(1));
    let gs = GameState::new_from_lines(&lines(&["255", "aaaa"])).unwrap();
    assert_eq!(gs.tube_count(), MAX_TUBES);
}

#[test]
fn loaded_puzzle_can_be_searched() {
    let gs = GameState::new_from_lines(&lines(&["1", "aaab", "bbba"])).unwrap();
    let mut moves = gs.get_legal_moves();
    assert_eq!(moves.len(), 2);
    let m = moves.remove(0);
    assert_eq!((m.from, m.to), (0, 2));
}
