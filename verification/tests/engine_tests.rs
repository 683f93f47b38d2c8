use search::{
    astar, bfs, bfs_with_shape, build_path, do_bfs, greedy, Error, Field, GraphSearch, Grid,
    SearchState, WorldShape,
};
use search::reconstruct_path;
use search::tables::PosTable;

fn open_grid_3x3() -> Grid {
    let mut fields = vec![Field::Passable; 9];
    fields[0] = Field::Start;
    fields[8] = Field::Goal;
    Grid { width: 3, height: 3, fields }
}

fn walled_grid_3x3() -> Grid {
    // the full middle row and middle column are impassable
    let mut fields = vec![Field::Passable; 9];
    fields[0] = Field::Start;
    fields[8] = Field::Goal;
    for idx in [1, 3, 4, 5, 7] {
        fields[idx] = Field::Impassable;
    }
    Grid { width: 3, height: 3, fields }
}

#[test]
fn trivial_bfs_finds_the_diagonal_path() {
    let mut eng = bfs(open_grid_3x3());
    let mut steps = 0;
    while !eng.result.is_over() {
        eng.step();
        steps += 1;
        assert!(steps <= 9);
    }
    match &eng.result {
        SearchState::Finished(path) => {
            assert_eq!(path, &vec![(2, 2), (1, 1), (0, 0)]);
            assert_eq!(path.len(), 3);
        },
        other => panic!("expected a finished search, got {:?}", other),
    }
}

#[test]
fn do_bfs_returns_the_same_path() {
    let r = do_bfs(open_grid_3x3());
    assert_eq!(r, Ok(vec![(2, 2), (1, 1), (0, 0)]));
}

#[test]
fn unreachable_goal_fails_with_the_reason() {
    let mut eng = bfs(walled_grid_3x3());
    while !eng.result.is_over() {
        eng.step();
    }
    match &eng.result {
        SearchState::Failed(reason) => assert_eq!(reason, "goal unreachable"),
        other => panic!("expected a failed search, got {:?}", other),
    }
}

#[test]
fn terminal_step_is_idempotent() {
    let mut eng = bfs(walled_grid_3x3());
    while !eng.result.is_over() {
        eng.step();
    }
    let result_before = eng.result.clone();
    let visited_before = eng.visited.items.clone();
    let frontier_before = eng.frontier.len();
    for _ in 0..3 {
        eng.step();
    }
    assert_eq!(eng.result, result_before);
    assert_eq!(eng.visited.items, visited_before);
    assert_eq!(eng.frontier.len(), frontier_before);
}

#[test]
fn stepping_is_deterministic() {
    let mut eng1 = bfs(open_grid_3x3());
    let mut eng2 = bfs(open_grid_3x3());
    for _ in 0..5 {
        eng1.step();
        eng2.step();
        assert_eq!(eng1.visited.items, eng2.visited.items);
        assert_eq!(eng1.nodes(), eng2.nodes());
        assert_eq!(eng1.result, eng2.result);
    }
}

#[test]
fn torus_wrap_visits_at_most_four_cells() {
    let mut fields = vec![Field::Passable; 4];
    fields[0] = Field::Start;
    let grid = Grid { width: 2, height: 2, fields };
    let mut eng = bfs_with_shape(grid, WorldShape::Torus { width: 2, height: 2 });
    while !eng.result.is_over() {
        eng.step();
    }
    assert!(eng.visited.items.len() <= 4);
    assert!(matches!(eng.result, SearchState::Failed(_)));
}

#[test]
fn greedy_finds_a_path_and_reports_walls() {
    let open = open_grid_3x3();
    match greedy(vec![(0, 0)], vec![(2, 2)], &open) {
        Ok(s) => {
            assert_eq!(s.paths.len(), 1);
            assert_eq!(s.paths[0], vec![(2, 2), (1, 1), (0, 0)]);
            assert_eq!(s.start, vec![(0, 0)]);
            assert_eq!(s.goals, vec![(2, 2)]);
        },
        Err(e) => panic!("expected a path, got {:?}", e),
    }
    let walled = walled_grid_3x3();
    match greedy(vec![(0, 0)], vec![(2, 2)], &walled) {
        Ok(_) => panic!("expected the goal to be unreachable"),
        Err(e) => assert!(matches!(e, Error::GoalUnreachable)),
    }
}

#[test]
fn astar_finds_a_path_and_reports_walls() {
    let open = open_grid_3x3();
    match astar(vec![(0, 0)], vec![(2, 2)], &open) {
        Ok(s) => {
            assert_eq!(s.paths.len(), 1);
            assert_eq!(s.paths[0], vec![(2, 2), (1, 1), (0, 0)]);
        },
        Err(e) => panic!("expected a path, got {:?}", e),
    }
    let walled = walled_grid_3x3();
    match astar(vec![(0, 0)], vec![(2, 2)], &walled) {
        Ok(_) => panic!("expected the goal to be unreachable"),
        Err(e) => assert!(matches!(e, Error::GoalUnreachable)),
    }
}

#[test]
fn build_path_walks_predecessors_back_to_the_start() {
    let mut steps: PosTable<(usize, usize)> = PosTable::new(3, 3);
    steps.insert((1, 1), (0, 0));
    steps.insert((2, 2), (1, 1));
    let path = build_path(&steps, (2, 2));
    assert_eq!(path, vec![(2, 2), (1, 1), (0, 0)]);
    assert_eq!(reconstruct_path((2, 2), &steps), path);
    let alone = build_path(&steps, (0, 2));
    assert_eq!(alone, vec![(0, 2)]);
}

#[test]
fn finished_step_is_idempotent_too() {
    let mut eng = bfs(open_grid_3x3());
    while !eng.result.is_over() {
        eng.step();
    }
    let result_before = eng.result.clone();
    for _ in 0..3 {
        eng.step();
    }
    assert_eq!(eng.result, result_before);
    assert!(matches!(eng.result, SearchState::Finished(_)));
}

#[test]
fn snapshot_restores_a_search_mid_run() {
    let mut eng = bfs(open_grid_3x3());
    eng.step();
    eng.step();
    let saved = eng.snapshot();
    while !eng.result.is_over() {
        eng.step();
    }
    let finished_once = eng.result.clone();
    let mut restored = saved;
    assert!(!restored.result.is_over());
    while !restored.result.is_over() {
        restored.step();
    }
    assert_eq!(restored.result, finished_once);
}

#[test]
fn engines_are_substitutable_through_the_trait() {
    let mut b = bfs(open_grid_3x3());
    GraphSearch::step(&mut b);
    assert!(!GraphSearch::nodes(&b).is_empty());
    let mut g = search::greedy_search(
        open_grid_3x3(),
        WorldShape::Rectangle { width: 3, height: 3 },
        (0, 0),
        (2, 2),
    );
    GraphSearch::step(&mut g);
    assert!(!GraphSearch::nodes(&g).is_empty());
    let mut a = search::astar_search(
        open_grid_3x3(),
        WorldShape::Rectangle { width: 3, height: 3 },
        (0, 0),
        (2, 2),
    );
    GraphSearch::step(&mut a);
    assert!(!GraphSearch::nodes(&a).is_empty());
}

#[test]
fn visited_positions_are_never_repeated() {
    let mut eng = bfs(open_grid_3x3());
    while !eng.result.is_over() {
        eng.step();
        let mut seen = eng.visited.items.clone();
        seen.sort();
        let n = seen.len();
        seen.dedup();
        assert_eq!(seen.len(), n);
    }
}
