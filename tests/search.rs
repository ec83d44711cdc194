use grid_search::{Algo, AlgoStatus, Algorithm, Coord, GridMap, Heuristic, MapError, Search};

fn c(x: usize, y: usize) -> Coord {
    Coord::new(x, y)
}

fn grid(width: usize, height: usize, cost: Vec<Vec<i32>>, start: Coord, targets: Vec<Coord>) -> GridMap {
    match GridMap::new(width, height, cost, start, targets) {
        Ok(m) => m,
        Err(e) => panic!("invalid grid: {:?}", e),
    }
}

fn open_grid(width: usize, height: usize) -> Vec<Vec<i32>> {
    vec![vec![0; height]; width]
}

/// Steps until the search ends; returns the number of steps taken.
fn run(s: &mut Search, limit: usize) -> usize {
    let mut ticks = 0;
    while matches!(s.status(), AlgoStatus::InProgress(_)) {
        assert!(ticks < limit, "search did not end");
        s.advance();
        ticks += 1;
    }
    ticks
}

fn found_path(s: &Search) -> Vec<Coord> {
    match s.status() {
        AlgoStatus::Found(path, _) => path.clone(),
        AlgoStatus::InProgress(_) => panic!("still running"),
        AlgoStatus::NoPath => panic!("no path"),
    }
}

fn path_cost(m: &GridMap, path: &[Coord]) -> i64 {
    path[1..].iter().map(|p| std::cmp::max(1, m.cost_at(*p).unwrap()) as i64).sum()
}

fn adjacent(a: Coord, b: Coord, diagonal: bool) -> bool {
    let dx = (a.x as i64 - b.x as i64).abs();
    let dy = (a.y as i64 - b.y as i64).abs();
    if diagonal {
        dx <= 1 && dy <= 1 && dx + dy >= 1
    } else {
        dx + dy == 1
    }
}

#[test]
fn uniform_cost_open_grid() {
    let m = grid(5, 5, open_grid(5, 5), c(0, 0), vec![c(4, 4)]);
    let mut s = Algo::Dijkstra.create(m, Heuristic::Manhattan, false);
    run(&mut s, 100);
    let path = found_path(&s);
    assert_eq!(path.len(), 9);
    assert_eq!(path[0], c(0, 0));
    assert_eq!(path[8], c(4, 4));
    assert_eq!(path_cost(s.map(), &path), 8);
    for w in path.windows(2) {
        assert!(adjacent(w[0], w[1], false));
    }
}

#[test]
fn a_star_matches_uniform_cost() {
    let m = grid(5, 5, open_grid(5, 5), c(0, 0), vec![c(4, 4)]);
    let mut s = Algo::AStar.create(m, Heuristic::Manhattan, false);
    let ticks = run(&mut s, 100);
    let path = found_path(&s);
    assert_eq!(path.len(), 9);
    assert_eq!(path_cost(s.map(), &path), 8);
    assert!(ticks <= 25);
}

#[test]
fn wall_with_single_opening() {
    let mut cost = open_grid(5, 5);
    for y in 1..5 {
        cost[2][y] = -1;
    }
    let m = grid(5, 5, cost, c(0, 0), vec![c(4, 4)]);
    let mut s = Algo::Dijkstra.create(m, Heuristic::Zero, false);
    run(&mut s, 100);
    let path = found_path(&s);
    assert!(path.contains(&c(2, 0)));
    assert_eq!(path[0], c(0, 0));
    assert_eq!(*path.last().unwrap(), c(4, 4));
    for p in &path {
        assert!(!s.map().is_obstacle(*p));
    }
}

#[test]
fn start_on_target() {
    let m = grid(3, 3, open_grid(3, 3), c(1, 1), vec![c(1, 1)]);
    let mut s = Search::new(m, Heuristic::Zero, false);
    s.advance();
    assert_eq!(found_path(&s), vec![c(1, 1)]);
    match s.status() {
        AlgoStatus::Found(_, closed) => assert_eq!(*closed, vec![c(1, 1)]),
        _ => panic!("expected a path"),
    }
}

#[test]
fn cheaper_target_wins_over_nearer_one() {
    // Target (2, 0) is two cells away but behind expensive cells;
    // target (0, 4) is four cells away over free cells.
    let mut cost = open_grid(3, 5);
    cost[1][0] = 9;
    cost[2][0] = 9;
    cost[1][1] = 9;
    cost[2][1] = 9;
    let m = grid(3, 5, cost, c(0, 0), vec![c(2, 0), c(0, 4)]);
    let mut s = Algo::Dijkstra.create(m, Heuristic::Zero, false);
    run(&mut s, 100);
    let path = found_path(&s);
    assert_eq!(*path.last().unwrap(), c(0, 4));
    assert_eq!(path_cost(s.map(), &path), 4);
}

#[test]
fn enclosed_target_gives_no_path() {
    let mut cost = open_grid(5, 5);
    cost[3][4] = -1;
    cost[3][3] = -1;
    cost[4][3] = -1;
    let m = grid(5, 5, cost, c(0, 0), vec![c(4, 4)]);
    let mut s = Algo::Dijkstra.create(m, Heuristic::Zero, false);
    let ticks = run(&mut s, 1000);
    assert!(matches!(s.status(), AlgoStatus::NoPath));
    // 21 free cells are reachable: one step for each, and one to notice the empty frontier.
    assert_eq!(ticks, 22);
}

#[test]
fn enclosed_target_diagonal_squeeze_refused() {
    let mut cost = open_grid(5, 5);
    cost[3][4] = -1;
    cost[4][3] = -1;
    let m = grid(5, 5, cost, c(0, 0), vec![c(4, 4)]);
    let mut s = Algo::AStar.create(m, Heuristic::Octile, true);
    run(&mut s, 1000);
    assert!(matches!(s.status(), AlgoStatus::NoPath));
}

#[test]
fn diagonal_move_beside_one_obstacle() {
    let mut cost = open_grid(2, 2);
    cost[1][0] = -1;
    let m = grid(2, 2, cost, c(0, 0), vec![c(1, 1)]);
    let mut s = Algo::AStar.create(m, Heuristic::Octile, true);
    run(&mut s, 10);
    assert_eq!(found_path(&s), vec![c(0, 0), c(1, 1)]);
}

#[test]
fn diagonal_path_steps_are_adjacent() {
    let mut cost = open_grid(6, 6);
    cost[2][2] = -1;
    cost[3][3] = 5;
    let m = grid(6, 6, cost, c(0, 0), vec![c(5, 5)]);
    let mut s = Algo::AStar.create(m, Heuristic::Octile, true);
    run(&mut s, 100);
    let path = found_path(&s);
    assert_eq!(path[0], c(0, 0));
    assert_eq!(*path.last().unwrap(), c(5, 5));
    for w in path.windows(2) {
        assert!(adjacent(w[0], w[1], true));
    }
    assert!(path.len() < 10);
}

#[test]
fn straight_mode_takes_no_diagonal_step() {
    let m = grid(4, 4, open_grid(4, 4), c(0, 0), vec![c(3, 3)]);
    let mut s = Algo::AStar.create(m, Heuristic::Octile, false);
    run(&mut s, 100);
    let path = found_path(&s);
    assert_eq!(path.len(), 7);
    for w in path.windows(2) {
        assert!(adjacent(w[0], w[1], false));
    }
}

#[test]
fn open_and_closed_stay_disjoint() {
    let mut cost = open_grid(6, 4);
    cost[2][1] = -1;
    cost[2][2] = -1;
    cost[4][0] = 3;
    let m = grid(6, 4, cost, c(0, 1), vec![c(5, 2)]);
    let mut s = Algo::AStar.create(m, Heuristic::Manhattan, false);
    let mut ticks = 0;
    while let AlgoStatus::InProgress((open, closed)) = s.status() {
        for o in open {
            assert!(!closed.contains(o));
        }
        assert_eq!(closed.len(), ticks);
        s.advance();
        ticks += 1;
        assert!(ticks < 100);
    }
    assert!(matches!(s.status(), AlgoStatus::Found(_, _)));
}

#[test]
fn ended_search_stays_ended() {
    let m = grid(3, 3, open_grid(3, 3), c(0, 0), vec![c(2, 2)]);
    let mut s = Algo::Dijkstra.create(m, Heuristic::Zero, false);
    run(&mut s, 100);
    let before = found_path(&s);
    s.advance();
    s.tick();
    assert_eq!(found_path(&s), before);

    let mut cost = open_grid(3, 1);
    cost[1][0] = -1;
    let m = grid(3, 1, cost, c(0, 0), vec![c(2, 0)]);
    let mut s = Algo::Dijkstra.create(m, Heuristic::Zero, false);
    run(&mut s, 100);
    assert!(matches!(s.status(), AlgoStatus::NoPath));
    s.tick();
    assert!(matches!(s.get_data(), AlgoStatus::NoPath));
}

#[test]
fn first_status_shows_start_on_frontier() {
    let m = grid(3, 3, open_grid(3, 3), c(1, 0), vec![c(2, 2)]);
    let s = Algo::Dijkstra.create(m, Heuristic::Zero, false);
    match s.status() {
        AlgoStatus::InProgress((open, closed)) => {
            assert_eq!(*open, vec![c(1, 0)]);
            assert!(closed.is_empty());
        }
        _ => panic!("expected a running search"),
    }
}

#[test]
fn equal_priorities_go_in_discovery_order() {
    // From (1, 1) the neighbours are found right, left, down, up.
    let m = grid(3, 3, open_grid(3, 3), c(1, 1), vec![c(0, 0)]);
    let mut s = Algo::Dijkstra.create(m, Heuristic::Zero, false);
    s.advance();
    s.advance();
    match s.status() {
        AlgoStatus::InProgress((open, closed)) => {
            assert_eq!(*closed, vec![c(1, 1), c(2, 1)]);
            assert_eq!(open[0], c(0, 1));
        }
        _ => panic!("expected a running search"),
    }
}

#[test]
fn cell_costs_count_at_least_one() {
    let mut cost = open_grid(3, 1);
    cost[1][0] = 4;
    cost[2][0] = -0;
    let m = grid(3, 1, cost, c(0, 0), vec![c(2, 0)]);
    let mut s = Algo::Dijkstra.create(m, Heuristic::Zero, false);
    run(&mut s, 10);
    let path = found_path(&s);
    assert_eq!(path, vec![c(0, 0), c(1, 0), c(2, 0)]);
    assert_eq!(path_cost(s.map(), &path), 5);
}

#[test]
fn heuristic_changes_order_not_result() {
    let mut cost = open_grid(7, 7);
    for y in 0..6 {
        cost[3][y] = -1;
    }
    let m1 = grid(7, 7, cost.clone(), c(0, 0), vec![c(6, 0)]);
    let m2 = grid(7, 7, cost, c(0, 0), vec![c(6, 0)]);
    let mut a = Algo::AStar.create(m1, Heuristic::Manhattan, false);
    let mut d = Algo::Dijkstra.create(m2, Heuristic::Manhattan, false);
    let ta = run(&mut a, 200);
    let td = run(&mut d, 200);
    let pa = found_path(&a);
    let pd = found_path(&d);
    assert_eq!(path_cost(a.map(), &pa), path_cost(d.map(), &pd));
    assert_eq!(path_cost(a.map(), &pa), 18);
    assert!(ta <= td);
}

#[test]
fn grid_errors() {
    let ok = |w: usize, h: usize| open_grid(w, h);
    assert_eq!(GridMap::new(0, 3, vec![], c(0, 0), vec![c(0, 0)]).err(), Some(MapError::EmptyDimensions));
    assert_eq!(GridMap::new(3, 0, ok(3, 0), c(0, 0), vec![c(0, 0)]).err(), Some(MapError::EmptyDimensions));
    assert_eq!(GridMap::new(3, 3, ok(2, 3), c(0, 0), vec![c(1, 1)]).err(), Some(MapError::CostShape));
    assert_eq!(GridMap::new(3, 3, ok(3, 2), c(0, 0), vec![c(1, 1)]).err(), Some(MapError::CostShape));
    assert_eq!(GridMap::new(3, 3, ok(3, 3), c(3, 0), vec![c(1, 1)]).err(), Some(MapError::StartOutOfBounds));
    let mut walled = ok(3, 3);
    walled[0][0] = -2;
    walled[2][2] = -1;
    assert_eq!(GridMap::new(3, 3, walled.clone(), c(0, 0), vec![c(1, 1)]).err(), Some(MapError::StartOnObstacle));
    assert_eq!(GridMap::new(3, 3, ok(3, 3), c(0, 0), vec![]).err(), Some(MapError::NoTargets));
    assert_eq!(GridMap::new(3, 3, ok(3, 3), c(0, 0), vec![c(1, 1), c(1, 3)]).err(), Some(MapError::TargetOutOfBounds));
    assert_eq!(GridMap::new(3, 3, walled, c(1, 0), vec![c(1, 1), c(2, 2)]).err(), Some(MapError::TargetOnObstacle));
}

#[test]
fn grid_accessors() {
    let mut cost = open_grid(4, 2);
    cost[3][1] = 7;
    cost[1][0] = -1;
    let m = grid(4, 2, cost, c(0, 1), vec![c(3, 1), c(2, 0)]);
    assert_eq!(m.width(), 4);
    assert_eq!(m.height(), 2);
    assert_eq!(m.start(), c(0, 1));
    assert_eq!(*m.targets(), vec![c(3, 1), c(2, 0)]);
    assert_eq!(m.cost_at(c(3, 1)), Some(7));
    assert_eq!(m.cost_at(c(4, 1)), None);
    assert!(m.is_obstacle(c(1, 0)));
    assert!(!m.is_obstacle(c(0, 0)));
    assert!(!m.is_obstacle(c(9, 9)));
    assert!(m.in_bounds(c(3, 1)));
    assert!(!m.in_bounds(c(3, 2)));
    assert!(m.is_target(c(2, 0)));
    assert!(!m.is_target(c(0, 0)));
}

#[test]
fn algo_registry() {
    assert_eq!(Algo::len(), 2);
    assert_eq!(Algo::from_index(0).name(), "A*");
    assert_eq!(Algo::from_index(1).name(), "Dijkstra");
    assert!(Algo::AStar.supported_heuristics());
    assert!(!Algo::Dijkstra.supported_heuristics());
    for i in 0..Algo::len() {
        let a = Algo::from_index(i);
        assert_eq!(a.supported_heuristics(), a == Algo::AStar);
    }
}

fn diagonal_path_cost(m: &GridMap, path: &[Coord]) -> i64 {
    path.windows(2)
        .map(|w| {
            let base = std::cmp::max(1, m.cost_at(w[1]).unwrap()) as i64;
            if w[0].x != w[1].x && w[0].y != w[1].y { base * 14 } else { base * 10 }
        })
        .sum()
}

#[test]
fn octile_a_star_matches_uniform_cost_diagonal() {
    let mut cost = open_grid(8, 8);
    for y in 0..6 {
        cost[4][y] = -1;
    }
    cost[2][5] = 3;
    cost[6][6] = 2;
    let m1 = grid(8, 8, cost.clone(), c(0, 0), vec![c(7, 0), c(7, 7)]);
    let m2 = grid(8, 8, cost, c(0, 0), vec![c(7, 0), c(7, 7)]);
    let mut a = Algo::AStar.create(m1, Heuristic::Octile, true);
    let mut d = Algo::Dijkstra.create(m2, Heuristic::Octile, true);
    let ta = run(&mut a, 200);
    let td = run(&mut d, 200);
    let pa = found_path(&a);
    let pd = found_path(&d);
    assert_eq!(diagonal_path_cost(a.map(), &pa), diagonal_path_cost(d.map(), &pd));
    assert!(ta <= td);
    for w in pa.windows(2) {
        assert!(adjacent(w[0], w[1], true));
    }
}

#[test]
fn diagonal_step_costs_more_than_straight() {
    let m = grid(3, 3, open_grid(3, 3), c(0, 0), vec![c(2, 2)]);
    let mut s = Algo::Dijkstra.create(m, Heuristic::Zero, true);
    run(&mut s, 50);
    let path = found_path(&s);
    assert_eq!(path, vec![c(0, 0), c(1, 1), c(2, 2)]);
    assert_eq!(diagonal_path_cost(s.map(), &path), 28);
}
