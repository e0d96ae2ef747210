use sokoban_graph::{is_box_trapped, is_winnable, parse_level, Vec2, WinnableState};

fn assert_level_winnable_state(expected: WinnableState, level: &str) {
    let (game_state, shared) = parse_level(level);
    let winnable = is_winnable(&shared, &game_state);
    assert_eq!(expected, winnable, "Expected {:?} but found was {:?}, for level: {}", expected, winnable, level);
}

#[test]
fn is_winnable_with_single_free_box_win_possible() {
    assert_level_winnable_state(WinnableState::WinMaybePossible, r#"
####
#@ #
# $#
#. #
####
"#);
    assert_level_winnable_state(WinnableState::WinMaybePossible, r#"
#####
#@$.#
#####
"#);
    assert_level_winnable_state(WinnableState::WinMaybePossible, r#"
######
#@.$ #
######
"#);
    assert_level_winnable_state(WinnableState::WinMaybePossible, r#"
#####
#@ *#
#####
"#);
}

#[test]
fn is_winnable_with_two_free_boxes_one_target_win_possible() {
    assert_level_winnable_state(WinnableState::WinMaybePossible, r#"
####
#@ #
#$$#
#. #
####
"#);
    assert_level_winnable_state(WinnableState::WinMaybePossible, r#"
#####
#@$.#
#$  #
#####
"#);
    assert_level_winnable_state(WinnableState::WinMaybePossible, r#"
####
#@$#
# *#
####
"#);
}

#[test]
fn is_winnable_with_box_trapped_win_impossible() {
    assert_level_winnable_state(WinnableState::WinImpossible, r#"
####
#@$#
#. #
####
"#);
    assert_level_winnable_state(WinnableState::WinImpossible, r#"
####
#@ #
#.$#
####
"#);
    assert_level_winnable_state(WinnableState::WinImpossible, r#"
####
#@.#
#$ #
####
"#);
    assert_level_winnable_state(WinnableState::WinImpossible, r#"
####
#$.#
# @#
####
"#);
    assert_level_winnable_state(WinnableState::WinImpossible, r#"
####
#@$####
#    .#
#######
"#);
    assert_level_winnable_state(WinnableState::WinImpossible, r#"
####
#@ ##
#. $#
#####
"#);
}

#[test]
fn is_winnable_with_one_box_two_targets_win_impossible() {
    assert_level_winnable_state(WinnableState::WinImpossible, r#"
#####
#@$ #
#.. #
#####
"#);
}

#[test]
fn is_winnable_with_one_trapped_box_two_free_two_targets_win_possible() {
    assert_level_winnable_state(WinnableState::WinMaybePossible, r#"
#######
#@$  $#
#..$  #
#######
"#);
}

#[test]
fn box_in_corner_off_target_is_trapped() {
    let (_, shared) = parse_level("####\n#@$#\n#. #\n####\n");
    assert!(is_box_trapped(&shared, Vec2 { i: 1, j: 2 }));
    // the same corner on a target is not a trap
    let (_, shared) = parse_level("####\n#@*#\n#  #\n####\n");
    assert!(!is_box_trapped(&shared, Vec2 { i: 1, j: 2 }));
    // a box along a wall but not in a corner is free
    let (_, shared) = parse_level("#####\n#@$ #\n#   #\n#####\n");
    assert!(!is_box_trapped(&shared, Vec2 { i: 1, j: 2 }));
}
