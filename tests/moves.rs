use sokoban_graph::{parse_level, render_game_to_string, step};
use sokoban_graph::{Direction, GameState, GameUpdate, SharedGameState, UserAction, Vec2};
use Direction::{Down, Left, Right, Up};

struct GameTestState {
    game_state: GameState,
    shared: SharedGameState,
}

impl GameTestState {
    fn new(level: &str) -> Self {
        let (game_state, shared) = parse_level(level);
        Self { game_state, shared }
    }

    fn game_to_string(&self) -> String {
        render_game_to_string(&self.shared, &self.game_state).trim_matches('\n').to_string()
    }

    fn assert_move(&mut self, direction: Direction) -> GameUpdate {
        self.assert_step(UserAction::Move(direction))
    }

    fn assert_moves(&mut self, directions: &[Direction]) {
        for &dir in directions {
            self.assert_move(dir);
        }
    }

    fn assert_step(&mut self, action: UserAction) -> GameUpdate {
        let update = step(&self.shared, &self.game_state, action);
        let GameUpdate::NextState(new_state, _change_type) = &update else {
            panic!("Expected NextState update, got {:?}, in map {}", update, self.game_to_string());
        };
        self.game_state = new_state.clone();
        update
    }

    fn try_step(&mut self, action: UserAction) -> GameUpdate {
        let update = step(&self.shared, &self.game_state, action);
        if let GameUpdate::NextState(new_state, _change_type) = &update {
            self.game_state = new_state.clone();
        }
        update
    }

    fn assert_matches(&self, expected: &str) {
        let actual = self.game_to_string();
        assert_eq!(expected.trim_matches('\n'), actual.as_str().trim_matches('\n'));
    }
}

#[test]
fn test_moves_it_works() {
    assert_eq!(2 + 2, 4);
}

#[test]
fn test_moves_when_move_right_observes_move_right() {
    let level = r#"
#@ #
"#;
    let mut game = GameTestState::new(level);
    game.assert_step(UserAction::Move(Right));
    let expected_level = r#"
# @#
"#;
    game.assert_matches(expected_level);
}

#[test]
fn test_moves_when_push_pushes() {
    let level = r#"
#@$ #
"#;
    let mut game = GameTestState::new(level);
    game.assert_step(UserAction::Move(Right));
    let expected_level = r#"
# @$#
"#;
    game.assert_matches(expected_level);
}

#[test]
fn when_block_pushed_into_block_remains_two_blocks() {
    let level = r#"
#@$$ #
"#;
    let mut game = GameTestState::new(level);
    game.try_step(UserAction::Move(Right));
    let expected_level = r#"
#@$$ #
"#;
    game.assert_matches(expected_level);
}

#[test]
fn test_moves_when_block_moves_game_is_inequal() {
    let level = r#"
#@$ #
"#;
    let mut game = GameTestState::new(level);
    let initial_state = game.game_state.clone();
    game.assert_move(Right);
    let new_state = game.game_state.clone();
    let expected_level = r#"
# @$#
"#;
    game.assert_matches(expected_level);
    assert_ne!(initial_state, new_state);
}

#[test]
fn test_moves_when_player_moves_back_game_is_equal() {
    let level = r#"
#@ $#
"#;
    let mut game = GameTestState::new(level);
    let initial_state = game.game_state.clone();
    game.assert_move(Right);
    game.assert_move(Left);
    let new_state = game.game_state.clone();
    let expected_level = r#"
#@ $#
"#;
    game.assert_matches(expected_level);
    assert_eq!(initial_state, new_state);
}

#[test]
fn test_moves_when_blocks_swap_game_remains_equal() {
    let level = r#"
#    #
#@$  #
# $  #
#    #
"#;
    let mut game = GameTestState::new(level);
    let initial_state = game.game_state.clone();
    game.assert_moves(&[
        Right, Left, Down, Down, Right, Up, Right, Right, Up, Up, Left, Down, Right, Down, Left,
    ]);
    game.assert_matches(
        r#"
#    #
# $  #
# $@ #
#    #
"#,
    );
    game.assert_moves(&[Down, Left, Left, Up, Up]);
    let new_state = game.game_state.clone();
    let expected_level = r#"
#    #
#@$  #
# $  #
#    #
"#;
    game.assert_matches(expected_level);
    assert_eq!(initial_state, new_state);
}

#[test]
fn tests_it_works() {
    assert_eq!(2 + 2, 4);
}

#[test]
fn tests_when_move_right_observes_move_right() {
    let level = r#"
#@ #
"#;
    let mut game = GameTestState::new(level);
    game.assert_step(UserAction::Move(Right));
    let expected_level = r#"
# @#
"#;
    game.assert_matches(expected_level);
}

#[test]
fn tests_when_push_pushes() {
    let level = r#"
#@$ #
"#;
    let mut game = GameTestState::new(level);
    game.assert_step(UserAction::Move(Right));
    let expected_level = r#"
# @$#
"#;
    game.assert_matches(expected_level);
}

#[test]
fn tests_when_block_moves_game_is_inequal() {
    let level = r#"
#@$ #
"#;
    let mut game = GameTestState::new(level);
    let initial_state = game.game_state.clone();
    game.assert_move(Right);
    let new_state = game.game_state.clone();
    let expected_level = r#"
# @$#
"#;
    game.assert_matches(expected_level);
    assert_ne!(initial_state, new_state);
}

#[test]
fn tests_when_player_moves_back_game_is_equal() {
    let level = r#"
#@ $#
"#;
    let mut game = GameTestState::new(level);
    let initial_state = game.game_state.clone();
    game.assert_move(Right);
    game.assert_move(Left);
    let new_state = game.game_state.clone();
    let expected_level = r#"
#@ $#
"#;
    game.assert_matches(expected_level);
    assert_eq!(initial_state, new_state);
}

#[test]
fn tests_when_blocks_swap_game_remains_equal() {
    let level = r#"
#    #
#@$  #
# $  #
#    #
"#;
    let mut game = GameTestState::new(level);
    let initial_state = game.game_state.clone();
    game.assert_moves(&[
        Right, Left, Down, Down, Right, Up, Right, Right, Up, Up, Left, Down, Right, Down, Left,
    ]);
    game.assert_matches(
        r#"
#    #
# $  #
# $@ #
#    #
"#,
    );
    game.assert_moves(&[Down, Left, Left, Up, Up]);
    let new_state = game.game_state.clone();
    let expected_level = r#"
#    #
#@$  #
# $  #
#    #
"#;
    game.assert_matches(expected_level);
    assert_eq!(initial_state, new_state);
}

#[test]
fn step_errors_name_each_illegal_move() {
    // off the board
    let (state, board) = parse_level("@ \n");
    match step(&board, &state, UserAction::Move(Up)) {
        GameUpdate::Error(msg) => assert_eq!(msg, "Cannot move out of bounds"),
        other => panic!("unexpected {:?}", other),
    }
    // into a wall
    let (state, board) = parse_level("#@\n");
    match step(&board, &state, UserAction::Move(Left)) {
        GameUpdate::Error(msg) => assert_eq!(msg, "Cannot walk into a wall"),
        other => panic!("unexpected {:?}", other),
    }
    // box pushed off the board
    let (state, board) = parse_level("@$\n");
    match step(&board, &state, UserAction::Move(Right)) {
        GameUpdate::Error(msg) => assert_eq!(msg, "Cannot push block out of bounds"),
        other => panic!("unexpected {:?}", other),
    }
    // box pushed into a wall
    let (state, board) = parse_level("@$#\n");
    match step(&board, &state, UserAction::Move(Right)) {
        GameUpdate::Error(msg) => assert_eq!(msg, "Cannot push block"),
        other => panic!("unexpected {:?}", other),
    }
}

#[test]
fn step_reports_the_kind_of_change() {
    let (state, board) = parse_level("@ $ \n");
    match step(&board, &state, UserAction::Move(Right)) {
        GameUpdate::NextState(s, kind) => {
            assert_eq!(kind, sokoban_graph::GameChangeType::PlayerMove);
            assert_eq!(s.player, sokoban_graph::Vec2 { i: 0, j: 1 });
            match step(&board, &s, UserAction::Move(Right)) {
                GameUpdate::NextState(s2, kind2) => {
                    assert_eq!(kind2, sokoban_graph::GameChangeType::PlayerAndBoxMove);
                    assert!(s2.environment.has_box_at(&sokoban_graph::Vec2 { i: 0, j: 3 }));
                    assert!(!s2.environment.has_box_at(&sokoban_graph::Vec2 { i: 0, j: 2 }));
                }
                other => panic!("unexpected {:?}", other),
            }
        }
        other => panic!("unexpected {:?}", other),
    }
}

#[test]
fn coordinates_inside_an_area() {
    let area = Vec2 { i: 3, j: 4 };
    assert!(Vec2 { i: 0, j: 0 }.inside(&area));
    assert!(Vec2 { i: 2, j: 3 }.inside(&area));
    assert!(!Vec2 { i: 3, j: 0 }.inside(&area));
    assert!(!Vec2 { i: 0, j: -1 }.inside(&area));
    assert!(Vec2 { i: 1, j: 1 }.precedes(&Vec2 { i: 1, j: 2 }));
    assert!(!Vec2 { i: 2, j: 0 }.precedes(&Vec2 { i: 1, j: 5 }));
}

#[test]
fn every_action_and_push_position() {
    assert_eq!(
        UserAction::all_actions(),
        vec![UserAction::Move(Up), UserAction::Move(Down), UserAction::Move(Left), UserAction::Move(Right)]
    );
    let around = UserAction::all_push_actions_around(&Vec2 { i: 2, j: 2 });
    assert_eq!(
        around,
        vec![
            (Vec2 { i: 1, j: 2 }, UserAction::Move(Down)),
            (Vec2 { i: 3, j: 2 }, UserAction::Move(Up)),
            (Vec2 { i: 2, j: 1 }, UserAction::Move(Right)),
            (Vec2 { i: 2, j: 3 }, UserAction::Move(Left)),
        ]
    );
}
