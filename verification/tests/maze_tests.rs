use game_search::maze::{GeneratorState, Maze, Vec2};

#[test]
fn foo() {}

#[test]
fn vec2_new_sets_both_coordinates() {
    let v = Vec2::new(3, 5);
    assert_eq!(v, Vec2 { x: 3, y: 5 });
}

#[test]
fn a_fresh_maze_has_no_passages() {
    let m = Maze::new(3, 3, Vec2::new(0, 0), Vec2::new(2, 2));
    for x in 0..3 {
        for y in 0..3 {
            assert_eq!(m.get_unvisited_neighbors(Vec2::new(x, y)), vec![]);
        }
    }
}

#[test]
fn add_edge_carves_a_passage_both_ways() {
    let mut m = Maze::new(3, 3, Vec2::new(0, 0), Vec2::new(2, 2));
    m.add_edge(Vec2::new(1, 1), Vec2::new(1, 2));
    assert_eq!(m.get_unvisited_neighbors(Vec2::new(1, 1)), vec![Vec2::new(1, 2)]);
    assert_eq!(m.get_unvisited_neighbors(Vec2::new(1, 2)), vec![Vec2::new(1, 1)]);
    m.add_edge(Vec2::new(0, 1), Vec2::new(1, 1));
    // neighbours come in the fixed order up, down, left, right
    assert_eq!(
        m.get_unvisited_neighbors(Vec2::new(1, 1)),
        vec![Vec2::new(1, 2), Vec2::new(0, 1)],
    );
    assert_eq!(m.get_unvisited_neighbors(Vec2::new(2, 1)), vec![]);
}

#[test]
fn the_first_step_enters_the_start_cell() {
    let mut m = Maze::new(2, 2, Vec2::new(0, 0), Vec2::new(1, 1));
    let mut g = m.create_generator();
    let st = g.step(&mut m);
    assert!(matches!(st, Some(GeneratorState::Exploring(v)) if v == Vec2::new(0, 0)));
}

#[test]
fn generation_visits_every_cell_and_finishes() {
    let mut m = Maze::new(2, 2, Vec2::new(0, 0), Vec2::new(1, 1));
    let mut g = m.create_generator();
    let mut explored = 0;
    let mut considered = 0;
    let mut backtracked = 0;
    let mut steps = 0;
    loop {
        match g.step(&mut m) {
            None => break,
            Some(GeneratorState::Exploring(_)) => explored += 1,
            Some(GeneratorState::Considering { .. }) => considered += 1,
            Some(GeneratorState::Backtracking(_)) => backtracked += 1,
        }
        steps += 1;
        assert!(steps < 100, "generation did not finish");
    }
    // one entry into the start, one carve per remaining cell, one pop per cell
    assert_eq!(explored, 1);
    assert_eq!(considered, 3);
    assert_eq!(backtracked, 4);
    // the carved passages form a spanning tree: every cell is reachable
    for x in 0..2 {
        for y in 0..2 {
            assert!(!m.get_unvisited_neighbors(Vec2::new(x, y)).is_empty());
        }
    }
    // stepping a finished generator stays finished
    assert!(g.step(&mut m).is_none());
}
