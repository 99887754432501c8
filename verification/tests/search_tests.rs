use ball_sort::frontier::{Frontier, GameStateWithHistory};
use ball_sort::game_state::GameState;
use ball_sort::move_type::{Move, MoveHistory};
use ball_sort::search::{SearchOutcome, SearchReport};
use ball_sort::tube::Tube;
use ball_sort::visited::VisitedSet;
use ball_sort::worker::{Worker, MAX_SEARCH_DEPTH, THREAD_SYNC_INTERVAL};
use std::cmp::Ordering;

fn puzzle(tubes: &[&str], empty: usize) -> GameState {
    let mut all: Vec<Tube> = tubes.iter().map(|t| Tube::new_from_str(t)).collect();
    for _ in 0..empty {
        all.push(Tube::empty_tube());
    }
    GameState::from_tubes(all).unwrap()
}

fn history(moves: &[(u8, u8)]) -> MoveHistory {
    let mut h = MoveHistory::new();
    for &(from, to) in moves {
        h.push(Move { from, to });
    }
    h
}

fn entry(gs: &GameState, moves: &[(u8, u8)]) -> GameStateWithHistory {
    GameStateWithHistory::from((gs.clone(), history(moves)))
}

fn solution(report: &SearchReport) -> &MoveHistory {
    match &report.outcome {
        SearchOutcome::Solved(h) => h,
        SearchOutcome::NoSolution => panic!("no solution reported"),
    }
}

#[test]
fn already_solved_puzzle_needs_no_move() {
    let gs = puzzle(&["aaaa"], 1);
    let report = gs.search_for_solution();
    assert_eq!(solution(&report).len(), 0);
    assert_eq!(report.tubes, 2);
    assert_eq!(report.visited, 1);
}

#[test]
fn three_move_puzzle_is_solved_in_three_legal_moves() {
    let gs = puzzle(&["aaab", "bbba"], 1);
    let report = gs.search_for_solution();
    let h = solution(&report);
    assert_eq!(h.len(), 3);
    let end = gs.replay(h).unwrap();
    assert!(end.is_solved());
    assert_eq!(report.tubes, 3);
    assert!(report.visited >= 4);
}

#[test]
fn reported_history_replays_to_a_solved_position() {
    let gs = puzzle(&["abab", "baba"], 2);
    let report = gs.search_for_solution();
    let h = solution(&report);
    let mut state = gs.clone();
    for i in 0..h.len() {
        let m = *h.get(i).unwrap();
        assert!(state.is_legal_move(m.from as usize, m.to as usize));
        state.apply_move(m);
    }
    assert!(state.is_solved());
    assert!(h.len() <= MAX_SEARCH_DEPTH);
}

#[test]
fn half_filled_colours_cannot_be_sorted() {
    // two balls of a colour never fill a tube of four
    let gs = puzzle(&["aabb"], 2);
    let report = gs.search_for_solution();
    assert!(matches!(report.outcome, SearchOutcome::NoSolution));
    assert_eq!(report.tubes, 3);
}

#[test]
fn blocked_puzzle_ends_with_no_solution() {
    let gs = puzzle(&["abca", "bcab", "cabc"], 0);
    let report = gs.search_for_solution();
    assert!(matches!(report.outcome, SearchOutcome::NoSolution));
    assert_eq!(report.visited, 1);
}

#[test]
fn unsolvable_puzzle_with_moves_ends_with_no_solution() {
    let mut gs = puzzle(&["abab", "baba"], 0);
    gs.0[0].pop();
    let report = gs.search_for_solution();
    assert!(matches!(report.outcome, SearchOutcome::NoSolution));
    assert!(report.visited > 1);
}

#[test]
fn depth_bound_cuts_the_search() {
    let gs = puzzle(&["aaab", "bbba"], 1);
    assert!(matches!(gs.search_with_depth(0).outcome, SearchOutcome::NoSolution));
    assert!(matches!(gs.search_with_depth(2).outcome, SearchOutcome::NoSolution));
    assert_eq!(solution(&gs.search_with_depth(3)).len(), 3);
    assert_eq!(solution(&gs.search_with_depth(usize::MAX)).len(), 3);
}

#[test]
fn depth_bound_zero_still_sees_a_solved_start() {
    let gs = puzzle(&["aaaa", "bbbb"], 0);
    assert_eq!(solution(&gs.search_with_depth(0)).len(), 0);
}

#[test]
fn search_twice_agrees() {
    let solvable = puzzle(&["abab", "baba"], 2);
    let first = solvable.search_for_solution();
    let second = solvable.search_for_solution();
    assert_eq!(solution(&first).len(), solution(&second).len());
    assert_eq!(first.visited, second.visited);
    let unsolvable = puzzle(&["aabb"], 2);
    assert!(matches!(unsolvable.search_for_solution().outcome, SearchOutcome::NoSolution));
    assert!(matches!(unsolvable.search_for_solution().outcome, SearchOutcome::NoSolution));
}

#[test]
fn search_leaves_the_initial_position_alone() {
    let gs = puzzle(&["aaab", "bbba"], 1);
    let copy = gs.clone();
    let _ = gs.search_for_solution();
    assert!(gs == copy);
}

#[test]
fn visited_set_claims_a_position_once() {
    let mut visited = VisitedSet::new();
    let gs = puzzle(&["aaab", "bbba"], 1);
    assert_eq!(visited.len(), 0);
    assert!(!visited.contains(&gs));
    assert!(visited.claim(&gs));
    assert!(visited.contains(&gs));
    assert!(!visited.claim(&gs));
    assert!(!visited.claim(&gs.clone()));
    assert_eq!(visited.len(), 1);
}

#[test]
fn visited_set_tells_positions_apart() {
    let mut visited = VisitedSet::new();
    let a = puzzle(&["aaab", "bbba"], 1);
    let b = puzzle(&["bbba", "aaab"], 1);
    assert!(visited.claim(&a));
    assert!(!visited.contains(&b));
    assert!(visited.claim(&b));
    assert_eq!(visited.len(), 2);
}

#[test]
fn visited_set_ignores_unoccupied_slots() {
    let mut visited = VisitedSet::new();
    let gs = puzzle(&["aaab", "bbba"], 1);
    let mut there_and_back = gs.clone();
    there_and_back.apply_move(Move { from: 0, to: 2 });
    there_and_back.apply_move(Move { from: 2, to: 0 });
    assert!(visited.claim(&gs));
    assert!(!visited.claim(&there_and_back));
    assert_eq!(visited.len(), 1);
}

#[test]
fn frontier_hands_out_shortest_history_first() {
    let gs = puzzle(&["aaab", "bbba"], 1);
    let mut frontier = Frontier::new();
    assert!(frontier.is_empty());
    assert!(frontier.pop().is_none());
    frontier.push(entry(&gs, &[(0, 2), (2, 0)]));
    frontier.push(entry(&gs, &[]));
    frontier.push(entry(&gs, &[(0, 2), (2, 0), (0, 2)]));
    frontier.push(entry(&gs, &[(1, 2)]));
    assert!(!frontier.is_empty());
    let lengths: Vec<usize> = (0..4).map(|_| frontier.pop().unwrap().1.len()).collect();
    assert_eq!(lengths, vec![0, 1, 2, 3]);
    assert!(frontier.pop().is_none());
    assert!(frontier.is_empty());
}

#[test]
fn frontier_takes_an_entry_pushed_below_the_last_popped() {
    let gs = puzzle(&["aaab", "bbba"], 1);
    let mut frontier = Frontier::new();
    frontier.push(entry(&gs, &[(0, 2), (2, 0)]));
    assert_eq!(frontier.pop().unwrap().1.len(), 2);
    frontier.push(entry(&gs, &[(0, 2)]));
    frontier.push(entry(&gs, &[(0, 2), (2, 0), (0, 2)]));
    assert_eq!(frontier.pop().unwrap().1.len(), 1);
    assert_eq!(frontier.pop().unwrap().1.len(), 3);
    assert!(frontier.pop().is_none());
}

#[test]
fn entries_compare_by_history_length_shorter_is_greater() {
    let a = puzzle(&["aaab", "bbba"], 1);
    let b = puzzle(&["aaaa"], 1);
    let short = entry(&a, &[(0, 2)]);
    let long = entry(&b, &[(0, 1), (1, 0)]);
    let also_short = entry(&b, &[(1, 0)]);
    assert!(short == also_short);
    assert!(short != long);
    assert_eq!(short.partial_cmp(&long), Some(Ordering::Greater));
    assert_eq!(long.partial_cmp(&short), Some(Ordering::Less));
    assert_eq!(short.partial_cmp(&also_short), Some(Ordering::Equal));
    assert!(long < short);
}

#[test]
fn expand_keeps_one_entry_for_each_new_position() {
    let gs = puzzle(&["aaab", "bbba"], 2);
    let mut visited = VisitedSet::new();
    assert!(visited.claim(&gs));
    let mut worker = Worker::new();
    worker.expand(&entry(&gs, &[]), &mut visited, MAX_SEARCH_DEPTH);
    assert_eq!(worker.input.len(), 0);
    assert_eq!(worker.output.len(), 4);
    assert_eq!(visited.len(), 5);
    let moves = gs.get_legal_moves();
    for (i, produced) in worker.output.iter().enumerate() {
        assert_eq!(produced.1.len(), 1);
        assert_eq!(produced.1.get(0), Some(&moves[i]));
        let mut expected = gs.clone();
        expected.apply_move(moves[i]);
        assert!(produced.0 == expected);
        assert!(visited.contains(&produced.0));
    }
    // nothing is new the second time
    worker.expand(&entry(&gs, &[]), &mut visited, MAX_SEARCH_DEPTH);
    assert_eq!(worker.output.len(), 4);
    assert_eq!(visited.len(), 5);
}

#[test]
fn expand_skips_positions_already_visited() {
    let gs = puzzle(&["aaab", "bbba"], 2);
    let mut seen = gs.clone();
    seen.apply_move(Move { from: 0, to: 3 });
    let mut visited = VisitedSet::new();
    visited.claim(&gs);
    visited.claim(&seen);
    let mut worker = Worker::new();
    worker.expand(&entry(&gs, &[]), &mut visited, MAX_SEARCH_DEPTH);
    let made: Vec<Move> = worker.output.iter().map(|e| *e.1.get(0).unwrap()).collect();
    assert_eq!(
        made,
        vec![Move { from: 0, to: 2 }, Move { from: 1, to: 2 }, Move { from: 1, to: 3 }]
    );
}

#[test]
fn expand_does_nothing_at_the_depth_bound() {
    let gs = puzzle(&["aaab", "bbba"], 2);
    let mut visited = VisitedSet::new();
    visited.claim(&gs);
    let mut worker = Worker::new();
    worker.expand(&entry(&gs, &[(0, 2), (2, 0)]), &mut visited, 2);
    assert_eq!(worker.output.len(), 0);
    assert_eq!(visited.len(), 1);
    worker.expand(&entry(&gs, &[(0, 2), (2, 0)]), &mut visited, 3);
    assert_eq!(worker.output.len(), 4);
    for produced in worker.output.iter() {
        assert_eq!(produced.1.len(), 3);
    }
}

#[test]
fn sync_hands_over_and_takes_shortest_first() {
    let gs = puzzle(&["aaab", "bbba"], 1);
    let mut frontier = Frontier::new();
    frontier.push(entry(&gs, &[(0, 2), (2, 0)]));
    let mut worker = Worker::new();
    worker.output.push_back(entry(&gs, &[(0, 2), (2, 0), (0, 2)]));
    worker.output.push_back(entry(&gs, &[(0, 2)]));
    worker.sync(&mut frontier);
    assert_eq!(worker.output.len(), 0);
    assert!(frontier.is_empty());
    let lengths: Vec<usize> = worker.input.iter().map(|e| e.1.len()).collect();
    assert_eq!(lengths, vec![1, 2, 3]);
    assert_eq!(worker.take_next().unwrap().1.len(), 1);
    assert_eq!(worker.take_next().unwrap().1.len(), 2);
    assert_eq!(worker.take_next().unwrap().1.len(), 3);
    assert!(worker.take_next().is_none());
}

#[test]
fn sync_takes_no_more_than_a_batch() {
    let gs = puzzle(&["aaaa"], 1);
    let mut frontier = Frontier::new();
    for i in 0..THREAD_SYNC_INTERVAL + 5 {
        let moves: Vec<(u8, u8)> = (0..(i % 3)).map(|_| (0u8, 1u8)).collect();
        frontier.push(entry(&gs, &moves));
    }
    let mut worker = Worker::new();
    worker.sync(&mut frontier);
    assert_eq!(worker.input.len(), THREAD_SYNC_INTERVAL);
    assert!(!frontier.is_empty());
    let lengths: Vec<usize> = worker.input.iter().map(|e| e.1.len()).collect();
    let mut sorted = lengths.clone();
    sorted.sort();
    assert_eq!(lengths, sorted);
    let mut left = 0;
    while let Some(e) = frontier.pop() {
        assert_eq!(e.1.len(), 2);
        left += 1;
    }
    assert_eq!(left, 5);
}
