use std::mem;

use go_engine::{BoardError, Color, Move, PointState, Position19};

fn snapshot(p: &Position19) -> (Vec<PointState>, Color, Option<usize>) {
    let mut cells = Vec::new();
    for q in 0..441 {
        cells.push(p.state(q));
    }
    (cells, p.turn(), p.get_ko())
}

#[test]
fn test_point_state_size() {
    assert_eq!(1, mem::size_of::<PointState>());
}

#[test]
fn is_all_empties_on_board() {
    let pos = Position19::new();
    let empties = pos.empties();
    assert!(empties.into_iter().all(|pt| pos.is_on_board(pt)));
}

#[test]
fn fresh_board_has_all_points_empty() {
    let pos = Position19::new();
    assert_eq!(pos.empties().len(), 361);
    assert_eq!(pos.all_points().len(), 361);
    for pt in pos.all_points() {
        assert_eq!(pos.state(pt), PointState::Empty);
    }
    assert_eq!(pos.turn(), Color::Black);
    assert_eq!(pos.get_ko(), None);
    assert_eq!(pos.get_komi(), 13);
}

#[test]
fn halo_is_out_and_stays_out() {
    let mut pos = Position19::new();
    let _ = pos.play(Move::Linear(pos.xy_to_linear(4, 4)));
    let _ = pos.play(Move::Linear(pos.xy_to_linear(16, 16)));
    let on_board: Vec<usize> = pos.all_points();
    for q in 0..441usize {
        if on_board.contains(&q) {
            assert_ne!(pos.state(q), PointState::Out);
        } else {
            assert_eq!(pos.state(q), PointState::Out);
        }
    }
}

#[test]
fn turn_alternates_on_every_play() {
    let mut pos = Position19::new();
    assert_eq!(pos.turn(), Color::Black);
    pos.play(Move::Pass).unwrap();
    assert_eq!(pos.turn(), Color::White);
    pos.play(Move::Linear(pos.xy_to_linear(10, 10))).unwrap();
    assert_eq!(pos.turn(), Color::Black);
}

#[test]
fn resign_is_not_playable() {
    let mut pos = Position19::new();
    assert!(matches!(pos.play(Move::Resign), Err(BoardError::ResignNotPlayable)));
    assert_eq!(pos.turn(), Color::Black);
}

#[test]
fn opponent_is_involutive() {
    assert_eq!(Color::Black.opponent(), Color::White);
    assert_eq!(Color::White.opponent(), Color::Black);
    assert_eq!(Color::Black.opponent().opponent(), Color::Black);
    assert_eq!(
        PointState::Occupied(Color::Black).opponent(),
        PointState::Occupied(Color::White)
    );
    assert_eq!(PointState::Empty.opponent(), PointState::Forbidden);
    assert!(PointState::Occupied(Color::White).is_stone());
    assert!(!PointState::Out.is_stone());
    assert_eq!(PointState::from_char('X'), PointState::Occupied(Color::Black));
    assert_eq!(PointState::from_char('O'), PointState::Occupied(Color::White));
    assert_eq!(PointState::from_char('#'), PointState::Out);
    assert_eq!(PointState::from_char('.'), PointState::Empty);
    assert_eq!(PointState::from_char('?'), PointState::Empty);
}

#[test]
fn single_stone_string_has_four_liberties() {
    let mut pos = Position19::new();
    let pt = pos.xy_to_linear(10, 10);
    pos.set_state(pt, PointState::Occupied(Color::Black));
    let gs = pos.string_at(pt);
    assert_eq!(gs.size(), 1);
    assert_eq!(gs.num_liberties(), 4);
    assert_eq!(gs.opponents.len(), 0);
}

#[test]
fn string_merges_and_counts_opponents() {
    let mut pos = Position19::new();
    let a = pos.xy_to_linear(10, 10);
    let b = pos.xy_to_linear(11, 10);
    let w = pos.xy_to_linear(10, 9);
    pos.set_state(a, PointState::Occupied(Color::Black));
    pos.set_state(b, PointState::Occupied(Color::Black));
    pos.set_state(w, PointState::Occupied(Color::White));
    let gs = pos.string_at(a);
    assert_eq!(gs.size(), 2);
    assert_eq!(gs.num_liberties(), 5);
    assert_eq!(gs.opponents.len(), 1);
    assert_eq!(gs.opponents[0], w);
}

fn ko_board() -> Position19 {
    // White at (2,2) has its single liberty at (3,2); Black to move.
    let mut rows = Vec::new();
    rows.push(".XO................".to_string());
    rows.push("XO.O...............".to_string());
    rows.push(".XO................".to_string());
    for _ in 3..19 {
        rows.push(".".repeat(19));
    }
    Position19::from_string(&rows.join("\n")).unwrap()
}

#[test]
fn single_stone_capture_sets_ko() {
    let mut pos = ko_board();
    let e = pos.xy_to_linear(3, 2);
    let a = pos.xy_to_linear(2, 2);
    assert_eq!(pos.state(a), PointState::Occupied(Color::White));
    let log = pos.play(Move::Linear(e)).unwrap();
    drop(log);
    assert_eq!(pos.state(a), PointState::Empty);
    assert_eq!(pos.state(e), PointState::Occupied(Color::Black));
    assert_eq!(pos.get_ko(), Some(a));
    // White may not retake at once.
    assert!(matches!(pos.play(Move::Linear(a)), Err(BoardError::KoForbidden)));
    // A pass lifts the ko.
    pos.play(Move::Pass).unwrap();
    assert_eq!(pos.get_ko(), None);
    assert!(pos.play(Move::Linear(a)).is_ok());
}

#[test]
fn self_capture_is_rejected() {
    // White stones pen in the corner point (1,1); Black to move.
    let mut rows = Vec::new();
    rows.push(".O.................".to_string());
    rows.push("O..................".to_string());
    for _ in 2..19 {
        rows.push(".".repeat(19));
    }
    let mut pos = Position19::from_string(&rows.join("\n")).unwrap();
    let before = snapshot(&pos);
    let corner = pos.xy_to_linear(1, 1);
    assert!(matches!(pos.play(Move::Linear(corner)), Err(BoardError::Suicide)));
    assert_eq!(snapshot(&pos), before);
}

#[test]
fn test_is_eye() {
    let mut pos = Position19::new();
    let point = pos.xy_to_linear(1, 2);
    pos.set_state(point, PointState::Occupied(Color::Black));
    let point = pos.xy_to_linear(2, 1);
    pos.set_state(point, PointState::Occupied(Color::Black));
    println!("{}", pos.to_board_string());
    let point = pos.xy_to_linear(1, 1);
    assert!(pos.is_eye(point) == PointState::Occupied(Color::Black));
}

#[test]
fn false_eye_in_the_corner() {
    let mut pos = Position19::new();
    pos.set_state(pos.xy_to_linear(1, 2), PointState::Occupied(Color::Black));
    pos.set_state(pos.xy_to_linear(2, 1), PointState::Occupied(Color::Black));
    pos.set_state(pos.xy_to_linear(2, 2), PointState::Occupied(Color::White));
    assert_eq!(pos.is_eye(pos.xy_to_linear(1, 1)), PointState::Empty);
}

#[test]
fn eye_with_open_neighbour_is_no_eye() {
    let mut pos = Position19::new();
    pos.set_state(pos.xy_to_linear(1, 2), PointState::Occupied(Color::Black));
    assert_eq!(pos.is_eye(pos.xy_to_linear(1, 1)), PointState::Empty);
}

#[test]
fn undo_round_trip_on_multi_stone_capture() {
    // The white pair (1,1)-(2,1) has its last liberty at (3,1).
    let mut rows = Vec::new();
    rows.push("OO.................".to_string());
    rows.push("XX.................".to_string());
    for _ in 2..19 {
        rows.push(".".repeat(19));
    }
    let mut pos = Position19::from_string(&rows.join("\n")).unwrap();
    let before = snapshot(&pos);
    let killer = pos.xy_to_linear(3, 1);
    let log = pos.play(Move::Linear(killer)).unwrap();
    assert_eq!(pos.state(pos.xy_to_linear(1, 1)), PointState::Empty);
    assert_eq!(pos.state(pos.xy_to_linear(2, 1)), PointState::Empty);
    assert_eq!(log.captives.len(), 2);
    assert_eq!(log.captives[0], pos.xy_to_linear(2, 1));
    assert_eq!(log.captives[1], pos.xy_to_linear(1, 1));
    pos.undo(&log);
    assert_eq!(snapshot(&pos), before);
}

#[test]
fn undo_reverses_a_pass_and_a_plain_move() {
    let mut pos = Position19::new();
    let before = snapshot(&pos);
    let log = pos.play(Move::Pass).unwrap();
    pos.undo(&log);
    assert_eq!(snapshot(&pos), before);
    let log = pos.play(Move::Linear(pos.xy_to_linear(4, 4))).unwrap();
    pos.undo(&log);
    assert_eq!(snapshot(&pos), before);
}

#[test]
fn empties_shrink_with_each_stone() {
    let mut pos = Position19::new();
    pos.play(Move::Linear(pos.xy_to_linear(3, 3))).unwrap();
    let empties = pos.empties();
    assert_eq!(empties.len(), 360);
    assert!(!empties.as_slice().contains(&pos.xy_to_linear(3, 3)));
    assert!(empties.as_slice().contains(&pos.xy_to_linear(4, 3)));
}

#[test]
fn score_of_the_empty_board_is_minus_komi() {
    let pos = Position19::new();
    assert_eq!(pos.score(), -13);
    let mut pos = Position19::new();
    pos.set_komi(0);
    assert_eq!(pos.score(), 0);
    pos.set_komi(-7);
    assert_eq!(pos.score(), 7);
}

#[test]
fn score_of_the_full_black_board() {
    let rows = vec!["X".repeat(19); 19];
    let pos = Position19::from_string(&rows.join("\n")).unwrap();
    assert_eq!(pos.score(), 2 * 361 - 13);
}

#[test]
fn score_counts_eyes_for_their_owner() {
    // A black group with an eye at (1,1): three points for Black.
    let mut pos = Position19::new();
    pos.set_state(pos.xy_to_linear(1, 2), PointState::Occupied(Color::Black));
    pos.set_state(pos.xy_to_linear(2, 1), PointState::Occupied(Color::Black));
    pos.set_komi(0);
    assert_eq!(pos.score(), 2 * 3);
}

#[test]
fn check_legal_spots_dead_strings() {
    let mut pos = Position19::new();
    assert!(pos.check_legal());
    // A lone white stone with no liberties cannot arise from play, but the
    // raw setter can produce it.
    pos.set_state(pos.xy_to_linear(1, 1), PointState::Occupied(Color::White));
    pos.set_state(pos.xy_to_linear(1, 2), PointState::Occupied(Color::Black));
    pos.set_state(pos.xy_to_linear(2, 1), PointState::Occupied(Color::Black));
    assert!(!pos.check_legal());
}
