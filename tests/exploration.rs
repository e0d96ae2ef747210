use sokoban_graph::graph::{Edge, PopulateResult, StateGraph};
use sokoban_graph::Direction::{Down, Left, Right, Up};
use sokoban_graph::populate::{explore, get_all_adjacent_nodes, populate_step};
use sokoban_graph::{
    parse_level, render_game_to_string, trim_unwinnable, GameState, GameStateEnvironment,
    SharedGameState, UniqueNode, UserAction, Vec2,
};

fn render_where_present(shared: &SharedGameState, positions: &[Vec2], present: char, absent: char) -> String {
    let mut result = String::new();
    for i in 0..shared.grid.len() {
        for j in 0..shared.grid[0].len() {
            let pos = Vec2 { i: i as i8, j: j as i8 };
            result.push(if positions.contains(&pos) { present } else { absent });
        }
        result.push('\n');
    }
    result
}

fn assert_game_set_matches(actual: &Vec<GameState>, shared: &SharedGameState, mut expected: Vec<&str>) {
    assert_eq!(actual.len(), expected.len(), "Number of game states differ");
    let mut actual_maps: Vec<String> = actual.iter().map(|state| render_game_to_string(shared, state)).collect();
    actual_maps.sort();
    expected.sort();
    for (actual_str, &expected_str) in actual_maps.iter().zip(expected.iter()) {
        assert_eq!(expected_str.trim_matches('\n'), actual_str.trim_matches('\n'));
    }
}

fn edges_of(graph: &StateGraph) -> Vec<Edge> {
    let mut edges = Vec::new();
    for (from, row) in graph.successors.iter().enumerate() {
        for &to in row {
            edges.push(Edge { from, to });
        }
    }
    edges
}

fn edge_count(graph: &StateGraph) -> usize {
    graph.successors.iter().map(|r| r.len()).sum()
}

#[test]
fn find_reachable_finds_all_reachable() {
    let level = r#"
#@ #
#  #
##$#
#  #
"#;
    let (game_state, shared) = parse_level(level);
    let reachable = shared.reachable_positions(&game_state);
    let expected_symbols = r#"
_**_
_**_
____
____
"#;
    let actual_symbols = render_where_present(&shared, &reachable, '*', '_');
    assert_eq!(expected_symbols.trim_matches('\n'), actual_symbols.trim_matches('\n'));
}

#[test]
fn find_adjacent_nodes_finds_all_possible_actions() {
    let level = r#"
######
#@ $ #
# $  #
#  $ #
######
"#;
    let (game_state, shared) = parse_level(level);
    let source_node = UniqueNode {
        environment: game_state.environment.clone(),
        minimum_reachable_player_position: game_state.player,
    };
    let new_game_states: Vec<GameState> = get_all_adjacent_nodes(&source_node, &shared)
        .into_iter()
        .map(|node| GameState { player: node.minimum_reachable_player_position, environment: node.environment })
        .collect();
    let expected_moves = vec![
        r#"
######
#@  $#
# $  #
#  $ #
######
"#,
        r#"
######
#@ $ #
#    #
# $$ #
######
"#,
        r#"
######
#@ $ #
#  $ #
#  $ #
######
"#,
        r#"
######
#@$$ #
#    #
#  $ #
######
"#,
        r#"
######
#@ $ #
# $  #
#   $#
######
"#,
    ];
    assert_game_set_matches(&new_game_states, &shared, expected_moves);
}

#[test]
fn trivial_push_to_target() {
    let (state, shared) = parse_level("#####\n#@$.#\n#####\n");
    let (mut graph, first) = explore(&shared, state);
    assert_eq!(first, 0);
    assert_eq!(graph.next_id, 2);
    assert_eq!(edges_of(&graph), vec![Edge { from: 0, to: 1 }]);
    let winning: Vec<bool> = (0..graph.next_id)
        .map(|id| {
            let node = graph.get_state(id).unwrap();
            shared.count_boxes_on_goals(&node.environment) == shared.total_targets()
        })
        .collect();
    assert_eq!(winning, vec![false, true]);
    let stats = trim_unwinnable(&mut graph, &shared);
    assert_eq!((stats.nodes_before, stats.nodes_after), (2, 2));
    assert_eq!((stats.edges_before, stats.edges_after), (1, 1));
    assert_eq!(stats.nodes_removed(), 0);
    assert_eq!(stats.edges_removed(), 0);
}

#[test]
fn unreachable_target() {
    let (state, shared) = parse_level("####\n#@$#\n#. #\n####\n");
    let (mut graph, _) = explore(&shared, state);
    assert_eq!(graph.next_id, 1);
    assert_eq!(edge_count(&graph), 0);
    let stats = trim_unwinnable(&mut graph, &shared);
    assert_eq!(stats.nodes_after, 0);
    assert_eq!(stats.edges_after, 0);
    assert_eq!(stats.nodes_removed(), 1);
}

#[test]
fn two_free_box_swap_equivalence() {
    let (state, shared) = parse_level("#    #\n#@$  #\n# $  #\n#    #\n");
    let start = UniqueNode::from_game_state(state.clone(), &shared);
    let mut s = state;
    for d in [Right, Left, Down, Down, Right, Up, Right, Right, Up, Up, Left, Down, Right, Down, Left] {
        match sokoban_graph::step(&shared, &s, UserAction::Move(d)) {
            sokoban_graph::GameUpdate::NextState(n, _) => s = n,
            other => panic!("unexpected {:?}", other),
        }
    }
    // the two boxes traded places, the player stands elsewhere
    let swapped = UniqueNode::from_game_state(s, &shared);
    assert_eq!(start.environment, swapped.environment);
    assert_eq!(start, swapped);
}

#[test]
fn canonical_collapse_via_player_reachability() {
    let (state, shared) = parse_level("#####\n#@  #\n# $ #\n#  .#\n#####\n");
    let expected = Vec2 { i: 1, j: 1 };
    let floors = [(1, 1), (1, 2), (1, 3), (2, 1), (2, 3), (3, 1), (3, 2), (3, 3)];
    for (i, j) in floors {
        let s = GameState { environment: state.environment.clone(), player: Vec2 { i, j } };
        let node = UniqueNode::from_game_state(s, &shared);
        assert_eq!(node.minimum_reachable_player_position, expected);
        assert_eq!(node.environment, state.environment);
    }
}

#[test]
fn single_cell_board_has_one_node() {
    let (state, shared) = parse_level("@");
    let (graph, first) = explore(&shared, state);
    assert_eq!(first, 0);
    assert_eq!(graph.next_id, 1);
    assert_eq!(edge_count(&graph), 0);
    assert!(graph.all_visited());
}

#[test]
fn solved_board_is_winning_and_kept() {
    let (state, shared) = parse_level("#####\n#@ *#\n#####\n");
    assert!(shared.is_won(&state));
    let (mut graph, first) = explore(&shared, state);
    let stats = trim_unwinnable(&mut graph, &shared);
    assert!(stats.nodes_after >= 1);
    let key = graph.node_of(first).unwrap();
    assert!(key.environment.has_box_at(&Vec2 { i: 1, j: 3 }));
}

#[test]
fn heuristic_prunes_pushes_into_dead_corners() {
    let (state, shared) = parse_level("#####\n#@$ #\n#  .#\n#####\n");
    let node = UniqueNode::from_game_state(state, &shared);
    assert!(get_all_adjacent_nodes(&node, &shared).is_empty());
}

#[test]
fn every_edge_is_a_push_successor_and_back() {
    let (state, shared) = parse_level("######\n#@ $ #\n# $  #\n# .. #\n######\n");
    let (graph, _) = explore(&shared, state);
    assert!(graph.next_id > 1);
    for id in 0..graph.next_id {
        let node = graph.get_state(id).unwrap();
        let mut expected: Vec<usize> = Vec::new();
        for succ in get_all_adjacent_nodes(&node, &shared) {
            let to = (0..graph.next_id).find(|&t| graph.get_state(t).unwrap() == succ).unwrap();
            if !expected.contains(&to) {
                expected.push(to);
            }
        }
        let mut actual = graph.successors[id].clone();
        actual.sort();
        expected.sort();
        assert_eq!(actual, expected);
    }
}

#[test]
fn exploration_ends_with_everything_visited() {
    let (state, shared) = parse_level("######\n#@ $ #\n# $  #\n# .. #\n######\n");
    let (mut graph, _) = explore(&shared, state);
    assert!(graph.all_visited());
    assert!(graph.next_unvisited.is_empty());
    assert_eq!(populate_step(&mut graph, &shared), PopulateResult::AllVisited);
}

#[test]
fn trimmed_nodes_all_reach_a_win() {
    let (state, shared) = parse_level("#######\n#@ $  #\n#  #  #\n# .   #\n#######\n");
    let (mut graph, _) = explore(&shared, state);
    let before = graph.next_id;
    let stats = trim_unwinnable(&mut graph, &shared);
    assert_eq!(stats.nodes_before, before);
    assert!(stats.nodes_after <= before);
    // every kept node has a path along kept edges to a winning node
    let kept: Vec<usize> = (0..before).filter(|&id| graph.node_of(id).is_some()).collect();
    assert_eq!(kept.len(), stats.nodes_after);
    for &id in &kept {
        let mut seen = vec![false; before];
        let mut stack = vec![id];
        let mut found = false;
        while let Some(x) = stack.pop() {
            if seen[x] {
                continue;
            }
            seen[x] = true;
            let n = graph.node_of(x).unwrap();
            if shared.count_boxes_on_goals(&n.environment) == shared.total_targets() {
                found = true;
                break;
            }
            stack.extend(graph.successors[x].iter().copied());
        }
        assert!(found, "node {} cannot reach a win", id);
    }
}

#[test]
fn graph_upsert_is_idempotent_and_queues_new_ids() {
    let mut graph = StateGraph::new();
    let a = UniqueNode { environment: GameStateEnvironment::new(vec![Vec2 { i: 1, j: 1 }]), minimum_reachable_player_position: Vec2 { i: 0, j: 0 } };
    let b = UniqueNode { environment: GameStateEnvironment::new(vec![Vec2 { i: 1, j: 2 }]), minimum_reachable_player_position: Vec2 { i: 0, j: 0 } };
    assert_eq!(graph.upsert_state(a.clone()), 0);
    assert_eq!(graph.upsert_state(b.clone()), 1);
    assert_eq!(graph.upsert_state(a.clone()), 0);
    assert_eq!(graph.next_id, 2);
    assert_eq!(graph.get_state(1), Some(b));
    assert_eq!(graph.get_state(2), None);
    graph.add_edge(Edge { from: 0, to: 1 });
    graph.add_edge(Edge { from: 0, to: 1 });
    assert_eq!(graph.successors[0], vec![1]);
    assert_eq!(graph.take_and_visit_unvisited_node(), Some(0));
    assert_eq!(graph.take_and_visit_unvisited_node(), Some(1));
    assert_eq!(graph.take_and_visit_unvisited_node(), None);
    assert!(graph.all_visited());
}

#[test]
fn parsing_the_rendered_state_gives_it_back() {
    let level = "#######\n#@$ . #\n# *$+ #\n#######\n";
    let (state, shared) = parse_level("#######\n#@$ . #\n# *$. #\n#######\n");
    let text = render_game_to_string(&shared, &state);
    let (state2, shared2) = parse_level(&text);
    assert_eq!(state, state2);
    assert_eq!(shared.grid, shared2.grid);
    assert_ne!(level, text);
}

#[test]
fn snapshot_lists_nodes_edges_and_best_count() {
    let (state, shared) = parse_level("#####\n#@$.#\n#####\n");
    let (graph, first) = explore(&shared, state);
    let snap = sokoban_graph::snapshot::snapshot(&graph, &shared, first);
    assert_eq!(snap.initial_node_id, 0);
    assert_eq!(snap.nodes.len(), 2);
    assert_eq!(snap.nodes[0].id, 0);
    assert_eq!(snap.nodes[0].boxes_on_targets_count, 0);
    assert_eq!(snap.nodes[0].seed_min_player, Vec2 { i: 1, j: 1 });
    assert_eq!(snap.nodes[1].boxes_on_targets_count, 1);
    assert_eq!(snap.nodes[1].seed_min_player, Vec2 { i: 1, j: 1 });
    assert_eq!(snap.edges, vec![Edge { from: 0, to: 1 }]);
    assert_eq!(snap.max_boxes_on_targets, 1);
}

#[test]
fn exploration_start_checker() {
    let (state, shared) = parse_level("#####\n#@$.#\n#####\n");
    assert!(sokoban_graph::populate::can_explore_from(&shared, &state));
    let on_box = GameState { environment: state.environment.clone(), player: Vec2 { i: 1, j: 2 } };
    assert!(!sokoban_graph::populate::can_explore_from(&shared, &on_box));
    let off_board = GameState { environment: state.environment.clone(), player: Vec2 { i: 5, j: 0 } };
    assert!(!sokoban_graph::populate::can_explore_from(&shared, &off_board));
}

#[test]
fn worklist_is_first_in_first_out_and_skips_stale_ids() {
    let mut graph = StateGraph::new();
    let mk = |j: i8| UniqueNode {
        environment: GameStateEnvironment::new(vec![Vec2 { i: 1, j }]),
        minimum_reachable_player_position: Vec2 { i: 0, j: 0 },
    };
    for j in 0..3 {
        graph.upsert_state(mk(j));
    }
    assert_eq!(graph.next_unvisited.iter().copied().collect::<Vec<_>>(), vec![0, 1, 2]);
    assert_eq!(graph.take_and_visit_unvisited_node(), Some(0));
    graph.next_unvisited.push_back(0);
    assert_eq!(graph.take_and_visit_unvisited_node(), Some(1));
    assert_eq!(graph.take_and_visit_unvisited_node(), Some(2));
    assert_eq!(graph.take_and_visit_unvisited_node(), None);
    assert!(graph.next_unvisited.is_empty());
}

#[test]
fn expansion_assigns_ids_in_discovery_order() {
    let (state, shared) = parse_level("######\n#@ $ #\n# $  #\n# .. #\n######\n");
    let (graph, _) = explore(&shared, state.clone());
    // node 1 onwards are, in order, the new successors of node 0
    let root = graph.get_state(0).unwrap();
    let first_succs = get_all_adjacent_nodes(&root, &shared);
    let mut expected: Vec<UniqueNode> = Vec::new();
    for n in first_succs {
        if !expected.contains(&n) && n != root {
            expected.push(n);
        }
    }
    for (k, n) in expected.iter().enumerate() {
        assert_eq!(graph.get_state(k + 1).as_ref(), Some(n));
    }
}
