use sokoban_graph::level::{level_fits_in_range, try_parse_level, ParseError};
use sokoban_graph::{parse_level, render_game_to_string, Cell, Vec2};

#[test]
fn rows_are_padded_and_blank_lines_skipped() {
    let (state, board) = parse_level("\n\n#####\n#@\n\n# $.#\n");
    assert_eq!(board.grid.len(), 3);
    assert!(board.grid.iter().all(|row| row.len() == 5));
    assert_eq!(board.grid[1], vec![Cell::Wall, Cell::Floor, Cell::Floor, Cell::Floor, Cell::Floor]);
    assert_eq!(board.grid[2][3], Cell::Target);
    assert_eq!(state.player, Vec2 { i: 1, j: 1 });
    assert!(state.environment.has_box_at(&Vec2 { i: 2, j: 2 }));
    assert_eq!(state.environment.iter_boxes().len(), 1);
}

#[test]
fn glyphs_map_to_cells_boxes_and_player() {
    let (state, board) = parse_level("#+*x\r\n");
    assert_eq!(board.grid, vec![vec![Cell::Wall, Cell::Target, Cell::Target, Cell::Floor]]);
    assert_eq!(state.player, Vec2 { i: 0, j: 1 });
    assert_eq!(state.environment.iter_boxes().clone(), vec![Vec2 { i: 0, j: 2 }]);
    assert_eq!(board.total_targets(), 2);
    assert_eq!(board.count_boxes_on_goals(&state.environment), 1);
    assert!(!board.is_won(&state));
}

#[test]
fn last_player_glyph_wins_and_missing_player_is_origin() {
    let (state, _) = parse_level("@ @\n");
    assert_eq!(state.player, Vec2 { i: 0, j: 2 });
    let (state, board) = parse_level("# .\n");
    assert_eq!(state.player, Vec2 { i: 0, j: 0 });
    assert_eq!(board.grid.len(), 1);
    let (state, board) = parse_level("");
    assert!(board.grid.is_empty());
    assert_eq!(state.player, Vec2 { i: 0, j: 0 });
}

#[test]
fn render_draws_each_glyph() {
    let text = "#@$.*+ \n";
    let (state, board) = parse_level("#@$.* .\n");
    // the second player glyph is absent; the player stands at (0, 1)
    let rendered = render_game_to_string(&board, &state);
    assert_eq!(rendered, "#@$.* .\n");
    assert_ne!(rendered, text);
    let (state, board) = parse_level("#+*\n# $\n");
    assert_eq!(render_game_to_string(&board, &state), "#+*\n# $\n");
}

#[test]
fn try_parse_rejects_bad_player_counts_and_size() {

    assert_eq!(try_parse_level("# .\n").err(), Some(ParseError::PlayerCount));
    assert_eq!(try_parse_level("@ @\n").err(), Some(ParseError::PlayerCount));
    let wide = format!("@{}\n", " ".repeat(127));
    assert!(!level_fits_in_range(&wide));
    assert_eq!(try_parse_level(&wide).err(), Some(ParseError::TooLarge));
    let tall = "#\n".repeat(128);
    assert_eq!(try_parse_level(&tall).err(), Some(ParseError::TooLarge));
    let (state, board) = try_parse_level("#@$.#\n").unwrap();
    assert_eq!(state.player, Vec2 { i: 0, j: 1 });
    assert_eq!(board.grid.len(), 1);
    assert!(level_fits_in_range("#@$.#\n"));
}
