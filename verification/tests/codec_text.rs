use go_engine::{BoardError, Color, Move, PointState, Position19};

#[test]
fn str_coord_renders_known_points() {
    let pos = Position19::new();
    assert_eq!(pos.str_coord(Move::Pass), "pass");
    assert_eq!(pos.str_coord(Move::Resign), "resign");
    assert_eq!(pos.str_coord(Move::Linear(pos.xy_to_linear(1, 1))), "A19");
    assert_eq!(pos.str_coord(Move::Linear(pos.xy_to_linear(1, 19))), "A1");
    assert_eq!(pos.str_coord(Move::Linear(pos.xy_to_linear(8, 10))), "H10");
    assert_eq!(pos.str_coord(Move::Linear(pos.xy_to_linear(9, 10))), "J10");
    assert_eq!(pos.str_coord(Move::Linear(pos.xy_to_linear(19, 19))), "T1");
    assert_eq!(pos.str_coord(Move::Linear(pos.xy_to_linear(16, 4))), "Q16");
}

#[test]
fn algebraic_parses_known_coordinates() {
    let pos = Position19::new();
    assert_eq!(pos.algebraic_to_move("PASS"), Ok(Move::Pass));
    assert_eq!(pos.algebraic_to_move("pass"), Ok(Move::Pass));
    assert_eq!(pos.algebraic_to_move("pAsS"), Ok(Move::Pass));
    assert_eq!(
        pos.algebraic_to_move("A19"),
        Ok(Move::Linear(pos.xy_to_linear(1, 1)))
    );
    assert_eq!(
        pos.algebraic_to_move("q16"),
        Ok(Move::Linear(pos.xy_to_linear(16, 4)))
    );
    assert_eq!(
        pos.algebraic_to_move("j1"),
        Ok(Move::Linear(pos.xy_to_linear(9, 19)))
    );
}

#[test]
fn algebraic_rejects_malformed_input() {
    let pos = Position19::new();
    assert_eq!(pos.algebraic_to_move(""), Err(BoardError::InvalidVertex));
    assert_eq!(pos.algebraic_to_move("A"), Err(BoardError::InvalidVertex));
    assert_eq!(pos.algebraic_to_move("I5"), Err(BoardError::InvalidVertex));
    assert_eq!(pos.algebraic_to_move("A0"), Err(BoardError::InvalidVertex));
    assert_eq!(pos.algebraic_to_move("A20"), Err(BoardError::InvalidVertex));
    assert_eq!(pos.algebraic_to_move("Z5"), Err(BoardError::InvalidVertex));
    assert_eq!(pos.algebraic_to_move("5A"), Err(BoardError::InvalidVertex));
    assert_eq!(pos.algebraic_to_move("resign"), Err(BoardError::InvalidVertex));
}

#[test]
fn coordinates_round_trip_over_the_whole_board() {
    let pos = Position19::new();
    for pt in pos.all_points() {
        let rendered = pos.str_coord(Move::Linear(pt));
        assert_eq!(pos.algebraic_to_move(&rendered), Ok(Move::Linear(pt)));
    }
}

#[test]
fn from_string_reads_stones_back() {
    let mut rows = vec![".".repeat(19); 19];
    rows[0] = format!("X{}", ".".repeat(18));
    rows[4] = format!("..O{}", ".".repeat(16));
    let text = rows.join("\n");
    let pos = Position19::from_string(&text).unwrap();
    assert_eq!(pos.state(pos.xy_to_linear(1, 1)), PointState::Occupied(Color::Black));
    assert_eq!(pos.state(pos.xy_to_linear(3, 5)), PointState::Occupied(Color::White));
    assert_eq!(pos.state(pos.xy_to_linear(2, 1)), PointState::Empty);
    assert_eq!(pos.turn(), Color::Black);
    assert_eq!(pos.get_ko(), None);
    assert_eq!(pos.get_komi(), 13);
    // A trailing newline is accepted too.
    assert!(Position19::from_string(&format!("{}\n", text)).is_ok());
}

#[test]
fn from_string_reports_bad_shapes() {
    assert!(matches!(Position19::from_string("abc"), Err(BoardError::WrongRows)));
    assert!(matches!(Position19::from_string(""), Err(BoardError::WrongRows)));
    let mut rows = vec![".".repeat(19); 19];
    rows.push(".".repeat(19));
    assert!(matches!(
        Position19::from_string(&rows.join("\n")),
        Err(BoardError::WrongRows)
    ));
    let mut rows = vec![".".repeat(19); 19];
    rows[7] = ".".repeat(18);
    assert!(matches!(
        Position19::from_string(&rows.join("\n")),
        Err(BoardError::WrongColumns)
    ));
}

#[test]
fn renderer_shows_stones_and_labels() {
    let mut pos = Position19::new();
    pos.set_state(pos.xy_to_linear(1, 1), PointState::Occupied(Color::Black));
    pos.set_state(pos.xy_to_linear(2, 1), PointState::Occupied(Color::White));
    let text = pos.to_board_string();
    let lines: Vec<&str> = text.lines().collect();
    assert_eq!(lines.len(), 21);
    assert_eq!(lines[0], " 19 X O . . . . . . . . . . . . . . . . . ");
    assert_eq!(lines[18], " 1  . . . . . . . . . . . . . . . . . . . ");
    assert_eq!(lines[19], "    A B C D E F G H J K L M N O P Q R S T ");
    assert_eq!(lines[20], "");
}

#[test]
fn width_height_and_coordinates() {
    let pos = Position19::new();
    assert_eq!(pos.width(), 19);
    assert_eq!(pos.height(), 19);
    assert_eq!(pos.halo(), 1);
    assert_eq!(pos.padded_width(), 21);
    let pt = pos.xy_to_linear(7, 13);
    assert_eq!(pos.linear_to_xy(pt), (7, 13));
    assert!(pos.is_on_board(pt));
    assert!(!pos.is_on_board(0));
}
