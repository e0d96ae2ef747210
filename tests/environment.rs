use sokoban_graph::{GameStateEnvironment, Vec2};

#[test]
fn test_has_box_finds_box() {
    let mut boxes = vec![];
    boxes.push(Vec2 { i: 0, j: 0 });
    boxes.push(Vec2 { i: 10, j: 9 });
    boxes.push(Vec2 { i: -9, j: -10 });

    let environment = GameStateEnvironment::new(boxes);

    assert!(environment.has_box_at(&Vec2 { i: 0, j: 0 }));
    assert!(environment.has_box_at(&Vec2 { i: 10, j: 9 }));
    assert!(environment.has_box_at(&Vec2 { i: -9, j: -10 }));
    assert!(!environment.has_box_at(&Vec2 { i: 1, j: 1 }));
    assert!(!environment.has_box_at(&Vec2 { i: -1, j: -1 }));
}

#[test]
fn box_set_is_kept_sorted_and_equal_regardless_of_order() {
    let a = GameStateEnvironment::new(vec![Vec2 { i: 2, j: 1 }, Vec2 { i: 0, j: 5 }, Vec2 { i: 2, j: 0 }]);
    let b = GameStateEnvironment::new(vec![Vec2 { i: 2, j: 0 }, Vec2 { i: 2, j: 1 }, Vec2 { i: 0, j: 5 }]);
    assert_eq!(a, b);
    assert_eq!(
        a.iter_boxes().clone(),
        vec![Vec2 { i: 0, j: 5 }, Vec2 { i: 2, j: 0 }, Vec2 { i: 2, j: 1 }]
    );
    assert_eq!(a.index_of_box_at(&Vec2 { i: 2, j: 0 }), Some(1));
    assert_eq!(a.index_of_box_at(&Vec2 { i: 3, j: 0 }), None);
}

#[test]
fn duplicate_boxes_collapse_and_moves_resort() {
    let mut env = GameStateEnvironment::new(vec![Vec2 { i: 1, j: 1 }, Vec2 { i: 1, j: 1 }, Vec2 { i: 0, j: 3 }]);
    assert_eq!(env.iter_boxes().len(), 2);
    env.set_box(0, &Vec2 { i: 5, j: 5 });
    env.complete_moves();
    assert_eq!(env.iter_boxes().clone(), vec![Vec2 { i: 1, j: 1 }, Vec2 { i: 5, j: 5 }]);
    env.move_box(Vec2 { i: 5, j: 5 }, Vec2 { i: 0, j: 0 });
    assert_eq!(env.iter_boxes().clone(), vec![Vec2 { i: 0, j: 0 }, Vec2 { i: 1, j: 1 }]);
    assert!(GameStateEnvironment::new_empty().iter_boxes().is_empty());
}
