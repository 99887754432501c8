use ball_sort::tube::{Tube, TUBE_SIZE};

#[test]
fn empty_tube_is_empty_and_not_full() {
    let t = Tube::empty_tube();
    assert!(t.is_empty());
    assert!(!t.is_full());
    assert!(!t.is_solved());
    assert_eq!(t.num_balls, 0);
}

#[test]
fn tube_from_text_decodes_base_36() {
    let t = Tube::new_from_str("09az");
    assert_eq!(t.colors, [0, 9, 10, 35]);
    assert_eq!(t.num_balls as usize, TUBE_SIZE);
    assert!(t.is_full());
    assert_eq!(t.get_top_color(), 35);
}

#[test]
fn tube_text_letters_count_in_either_case() {
    let lower = Tube::new_from_str("abcz");
    let upper = Tube::new_from_str("ABCZ");
    assert!(lower == upper);
    assert_eq!(upper.colors, [10, 11, 12, 35]);
}

#[test]
fn tube_parse_rejects_bad_text() {
    assert!(Tube::parse("abc").is_none());
    assert!(Tube::parse("abcde").is_none());
    assert!(Tube::parse("ab-d").is_none());
    assert!(Tube::parse("").is_none());
    assert!(Tube::parse("\u{e9}12").is_none());
    assert!(Tube::parse("a\u{e9}cd").is_none());
    assert!(Tube::parse("ab d").is_none());
    assert!(Tube::parse("abcd").is_some());
}

#[test]
fn tube_solved_needs_full_and_uniform() {
    assert!(Tube::new_from_str("aaaa").is_solved());
    assert!(!Tube::new_from_str("aaab").is_solved());
    assert!(!Tube::new_from_str("baaa").is_solved());
    let mut t = Tube::new_from_str("aaaa");
    t.pop();
    assert!(!t.is_solved());
}

#[test]
fn push_then_pop_gives_the_tube_back() {
    let mut t = Tube::new_from_str("abcd");
    assert_eq!(t.pop(), 13);
    assert_eq!(t.pop(), 12);
    let before = t;
    t.push(7);
    assert_eq!(t.num_balls, 3);
    assert_eq!(t.get_top_color(), 7);
    assert_eq!(t.pop(), 7);
    assert!(t == before);
    assert_eq!(t.num_balls, 2);
}

#[test]
fn tube_equality_ignores_unoccupied_slots() {
    let mut a = Tube::new_from_str("abcd");
    let mut b = Tube::new_from_str("abzz");
    a.pop();
    a.pop();
    b.pop();
    b.pop();
    assert!(a == b);
    assert_ne!(a.colors, b.colors);
    b.pop();
    assert!(a != b);
}
