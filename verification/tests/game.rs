use contagion_grid::tictactoe::{handle_event, GameAction, GameEvent, TicTacToe};

#[test]
fn new_game_starts_blank_with_o_to_move() {
    let g = TicTacToe::new("X");
    assert_eq!(g.player, "X");
    assert_eq!(g.turn, "O");
    assert_eq!(g.board, vec![vec![" "; 3], vec![" "; 3], vec![" "; 3]]);
    assert!(!g.is_my_turn());
    let g2 = TicTacToe::new("O");
    assert!(g2.is_my_turn());
}

#[test]
fn positions_round_trip() {
    let names = [
        ("NW", (0, 0)),
        ("N", (0, 1)),
        ("NE", (0, 2)),
        ("W", (1, 0)),
        ("C", (1, 1)),
        ("E", (1, 2)),
        ("SW", (2, 0)),
        ("S", (2, 1)),
        ("SE", (2, 2)),
    ];
    for (name, (i, j)) in names {
        assert_eq!(TicTacToe::index_to_position(i, j), name);
        assert_eq!(TicTacToe::position_to_index(name), (i, j));
    }
}

#[test]
fn next_turn_alternates() {
    let mut g = TicTacToe::new("O");
    g.next_turn();
    assert_eq!(g.turn, "X");
    g.next_turn();
    assert_eq!(g.turn, "O");
}

#[test]
fn play_symbol_marks_blank_cell() {
    let mut g = TicTacToe::new("O");
    g.play_symbol("C".to_string());
    assert_eq!(g.board[1][1], "O");
    assert_eq!(g.turn, "X");
    // an occupied cell is left as it is, but the turn still passes
    g.play_symbol("C".to_string());
    assert_eq!(g.board[1][1], "O");
    assert_eq!(g.turn, "O");
}

#[test]
fn random_move_fills_a_blank_cell() {
    let mut g = TicTacToe::new("O");
    // occupy everything but the south-east corner
    for pos in ["NW", "N", "NE", "W", "C", "E", "SW", "S"] {
        g.play_symbol(pos.to_string());
    }
    let picked = g.random_move();
    // only one blank cell was left, so the random draw has to land on it
    assert_eq!(picked, "SE");
    assert_ne!(g.board[2][2], " ");
}

#[test]
fn game_end_event_stops_session() {
    let mut game = None;
    assert!(matches!(
        handle_event(&mut game, GameEvent::GameEnd),
        GameAction::Stop
    ));
    assert!(matches!(
        handle_event(&mut game, GameEvent::FlipTable),
        GameAction::Stop
    ));
    assert!(matches!(
        handle_event(&mut game, GameEvent::Other),
        GameAction::Wait
    ));
    assert!(game.is_none());
}

#[test]
fn initial_event_moves_first_when_playing_o() {
    let mut game = None;
    let act = handle_event(
        &mut game,
        GameEvent::Initial { you_are: "O".to_string() },
    );
    assert!(matches!(act, GameAction::Send(_)));
    assert!(game.is_some());

    let mut game2 = None;
    let act2 = handle_event(
        &mut game2,
        GameEvent::Initial { you_are: "X".to_string() },
    );
    assert!(matches!(act2, GameAction::Wait));
}

#[test]
fn opponent_move_is_answered() {
    let mut game = Some(TicTacToe::new("X"));
    let act = handle_event(
        &mut game,
        GameEvent::Move {
            player: "O".to_string(),
            position: "C".to_string(),
        },
    );
    let g = game.as_ref().unwrap();
    assert_eq!(g.board[1][1], "O");
    match act {
        GameAction::Send(pos) => {
            let (i, j) = TicTacToe::position_to_index(&pos);
            assert_eq!(g.board[i][j], "X");
        }
        _ => panic!("expected a move in reply"),
    }
    // our own echoed move is ignored
    let act2 = handle_event(
        &mut game,
        GameEvent::Move {
            player: "X".to_string(),
            position: "C".to_string(),
        },
    );
    assert!(matches!(act2, GameAction::Wait));
}

#[test]
fn full_board_stops_session() {
    let mut game = Some(TicTacToe::new("X"));
    // fill every cell but the south-east corner
    for pos in ["NW", "N", "NE", "W", "C", "E", "SW", "S"] {
        game.as_mut().unwrap().play_symbol(pos.to_string());
    }
    let act = handle_event(
        &mut game,
        GameEvent::Move {
            player: "O".to_string(),
            position: "SE".to_string(),
        },
    );
    // nothing is left to answer with once the board is full
    assert!(matches!(act, GameAction::Stop));
    assert_ne!(game.as_ref().unwrap().board[2][2], " ");
}
