use ball_sort::game_state::GameState;
use ball_sort::move_type::{Move, MoveHistory, MOVE_HISTORY_CAPACITY};
use ball_sort::tube::Tube;

fn position(tubes: &[&str], empty: usize) -> GameState {
    let mut all: Vec<Tube> = tubes.iter().map(|t| Tube::new_from_str(t)).collect();
    for _ in 0..empty {
        all.push(Tube::empty_tube());
    }
    GameState::from_tubes(all).unwrap()
}

fn mv(from: u8, to: u8) -> Move {
    Move { from, to }
}

#[test]
fn from_tubes_rejects_too_many_tubes() {
    let tubes = vec![Tube::empty_tube(); 257];
    assert!(GameState::from_tubes(tubes).is_none());
    let tubes = vec![Tube::empty_tube(); 256];
    assert!(GameState::from_tubes(tubes).is_some());
}

#[test]
fn from_tubes_rejects_overfull_tube() {
    let bad = Tube { colors: [1, 1, 1, 1], num_balls: 5 };
    assert!(GameState::from_tubes(vec![Tube::empty_tube(), bad]).is_none());
}

#[test]
fn solved_position_has_only_empty_or_sorted_tubes() {
    assert!(position(&["aaaa"], 1).is_solved());
    assert!(position(&["aaaa", "bbbb"], 0).is_solved());
    assert!(position(&[], 3).is_solved());
    assert!(!position(&["aaab", "bbba"], 1).is_solved());
    assert!(!position(&["aaaa", "bbba"], 0).is_solved());
}

#[test]
fn partly_filled_tube_is_not_solved() {
    let mut gs = position(&["aaaa"], 1);
    gs.apply_move(mv(0, 1));
    assert!(!gs.is_solved());
}

#[test]
fn legal_move_rules() {
    let gs = position(&["aaab", "bbba", "aaaa"], 1);
    // same tube
    assert!(!gs.is_legal_move(0, 0));
    // colours differ
    assert!(!gs.is_legal_move(0, 1));
    // target full
    assert!(!gs.is_legal_move(1, 0));
    assert!(!gs.is_legal_move(1, 2));
    // into an empty tube
    assert!(gs.is_legal_move(0, 3));
    assert!(gs.is_legal_move(1, 3));
    assert!(gs.is_legal_move(2, 3));
    // out of an empty tube
    assert!(!gs.is_legal_move(3, 0));
    // past the last tube
    assert!(!gs.is_legal_move(4, 0));
    assert!(!gs.is_legal_move(0, 4));
}

#[test]
fn legal_move_onto_matching_colour() {
    let mut gs = position(&["aaab", "bbba"], 1);
    gs.apply_move(mv(1, 2));
    // tube 1 is now "bbb", tube 2 is "a"
    assert!(gs.is_legal_move(0, 1));
    assert!(!gs.is_legal_move(0, 2));
    assert!(gs.is_legal_move(2, 1) == false);
}

#[test]
fn legal_moves_come_by_source_then_target() {
    let gs = position(&["aaab", "bbba"], 2);
    assert_eq!(gs.get_legal_moves(), vec![mv(0, 2), mv(0, 3), mv(1, 2), mv(1, 3)]);
}

#[test]
fn legal_moves_of_a_blocked_position_are_none() {
    let gs = position(&["abab", "baba"], 0);
    assert_eq!(gs.get_legal_moves(), Vec::<Move>::new());
}

#[test]
fn every_generated_move_is_legal_and_every_legal_pair_is_generated() {
    let mut gs = position(&["abca", "bcab", "cabc"], 2);
    gs.apply_move(mv(0, 3));
    gs.apply_move(mv(1, 4));
    let moves = gs.get_legal_moves();
    let n = gs.tube_count();
    let mut expected = Vec::new();
    for from in 0..n {
        for to in 0..n {
            if gs.is_legal_move(from, to) {
                expected.push(mv(from as u8, to as u8));
            }
        }
    }
    assert_eq!(moves, expected);
    for m in &moves {
        assert_ne!(m.from, m.to);
        let source = gs.0[m.from as usize];
        let target = gs.0[m.to as usize];
        assert!(!source.is_empty());
        assert!(!target.is_full());
        if !target.is_empty() {
            assert_eq!(source.get_top_color(), target.get_top_color());
        }
    }
}

#[test]
fn apply_move_moves_exactly_one_ball() {
    let mut gs = position(&["abbb", "cccc"], 1);
    let balls_before: usize = gs.0.iter().map(|t| t.num_balls as usize).sum();
    gs.apply_move(mv(0, 2));
    assert_eq!(gs.0[0].num_balls, 3);
    assert_eq!(gs.0[1].num_balls, 4);
    assert_eq!(gs.0[2].num_balls, 1);
    assert_eq!(gs.0[2].get_top_color(), 11);
    assert_eq!(gs.0[0].get_top_color(), 11);
    let balls_after: usize = gs.0.iter().map(|t| t.num_balls as usize).sum();
    assert_eq!(balls_before, balls_after);
    assert!(gs == {
        let mut expected = position(&["abbb", "cccc"], 0);
        expected.0[0].pop();
        let mut third = Tube::empty_tube();
        third.push(11);
        expected.0.push(third);
        expected
    });
}

#[test]
fn every_generated_move_conserves_balls() {
    let gs = position(&["abca", "bcab", "cabc"], 2);
    for m in gs.get_legal_moves() {
        let mut next = gs.clone();
        next.apply_move(m);
        assert_eq!(next.tube_count(), gs.tube_count());
        for i in 0..gs.tube_count() {
            let before = gs.0[i].num_balls;
            let after = next.0[i].num_balls;
            if i == m.from as usize {
                assert_eq!(after, before - 1);
            } else if i == m.to as usize {
                assert_eq!(after, before + 1);
            } else {
                assert_eq!(after, before);
                assert!(next.0[i] == gs.0[i]);
            }
        }
    }
}

#[test]
fn position_equality_is_by_tube_and_by_place() {
    let a = position(&["aaab", "bbba"], 1);
    let b = position(&["aaab", "bbba"], 1);
    let swapped = position(&["bbba", "aaab"], 1);
    assert!(a == b);
    assert!(a != swapped);
    assert!(a != position(&["aaab", "bbba"], 2));
}

#[test]
fn position_equality_ignores_unoccupied_slots() {
    let mut a = position(&["aaab", "bbba"], 1);
    let b = a.clone();
    a.apply_move(mv(0, 2));
    a.apply_move(mv(2, 0));
    // the third tube of `a` still holds the ball's colour in a free slot
    assert_ne!(a.0[2].colors, b.0[2].colors);
    assert!(a == b);
    assert_eq!(a.key(), b.key());
}

#[test]
fn key_lists_each_tube_with_its_count() {
    let mut gs = position(&["012z"], 2);
    gs.apply_move(mv(0, 2));
    assert_eq!(gs.key(), vec![3, 0, 1, 2, 0, 1, 35]);
}

#[test]
fn keys_of_different_positions_differ() {
    let mut a = position(&[], 2);
    a.0[0].push(1);
    let mut b = position(&[], 2);
    b.0[1].push(1);
    assert_ne!(a.key(), b.key());
    // one tube holding the ball "1", against two tubes of which the
    // second holds no ball
    let mut c = position(&[], 1);
    c.0[0].push(0);
    assert_ne!(c.key(), position(&[], 2).key());
}

#[test]
fn replay_follows_legal_moves() {
    let gs = position(&["aaab", "bbba"], 1);
    let mut h = MoveHistory::new();
    h.push(mv(1, 2));
    h.push(mv(0, 1));
    h.push(mv(2, 0));
    let end = gs.replay(&h).unwrap();
    assert!(end.is_solved());
    assert!(end == position(&["aaaa", "bbbb"], 1));
}

#[test]
fn replay_stops_at_an_illegal_move() {
    let gs = position(&["aaab", "bbba"], 1);
    let mut h = MoveHistory::new();
    h.push(mv(1, 2));
    h.push(mv(0, 2));
    assert!(gs.replay(&h).is_none());
    let mut h = MoveHistory::new();
    h.push(mv(0, 0));
    assert!(gs.replay(&h).is_none());
    assert!(gs.replay(&MoveHistory::new()).unwrap() == gs);
}

#[test]
fn history_is_append_only_and_indexed_from_the_oldest() {
    let mut h = MoveHistory::new();
    assert_eq!(h.len(), 0);
    assert!(h.get(0).is_none());
    h.push(mv(1, 2));
    h.push(mv(3, 4));
    assert_eq!(h.len(), 2);
    assert_eq!(h.get(0), Some(&mv(1, 2)));
    assert_eq!(h.get(1), Some(&mv(3, 4)));
    assert!(h.get(2).is_none());
    let copy = h.clone();
    assert!(copy == h);
    h.push(mv(0, 1));
    assert!(copy != h);
    assert_eq!(copy.len(), 2);
}

#[test]
fn history_holds_as_many_moves_as_its_capacity() {
    let mut h = MoveHistory::new();
    for i in 0..MOVE_HISTORY_CAPACITY {
        h.push(mv((i % 7) as u8, (i % 5) as u8));
    }
    assert_eq!(h.len(), MOVE_HISTORY_CAPACITY);
    assert_eq!(h.get(MOVE_HISTORY_CAPACITY - 1), Some(&mv(3, 4)));
}
