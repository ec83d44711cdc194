use grid_search::{Algo, AlgoStatus, Coord, Executor, GridMap, Heuristic, Key};

fn executor(width: usize, target: Coord) -> Executor {
    let m = GridMap::new(width, 1, vec![vec![0; 1]; width], Coord::new(0, 0), vec![target]).unwrap();
    Executor::new(Algo::Dijkstra.create(m, Heuristic::Zero, false), Algo::Dijkstra.name())
}

#[test]
fn executor_starts_automatic() {
    let e = executor(4, Coord::new(3, 0));
    assert!(e.is_auto());
    assert_eq!(e.interval_ms(), 200);
    assert_eq!(e.ticks(), 0);
    assert_eq!(e.algo_name(), "Dijkstra");
    assert!(!e.is_complete());
}

#[test]
fn executor_steps_after_interval() {
    let mut e = executor(4, Coord::new(3, 0));
    e.update(100);
    assert_eq!(e.ticks(), 0);
    e.update(200);
    assert_eq!(e.ticks(), 0);
    e.update(201);
    assert_eq!(e.ticks(), 1);
    e.update(300);
    assert_eq!(e.ticks(), 1);
    e.update(402);
    assert_eq!(e.ticks(), 2);
}

#[test]
fn executor_manual_step() {
    let mut e = executor(4, Coord::new(3, 0));
    e.on_button_press(Key::Step);
    assert!(!e.is_auto());
    // A request made before the interval has passed is used up without a step.
    e.update(5);
    assert_eq!(e.ticks(), 0);
    e.update(10_000);
    assert_eq!(e.ticks(), 0);
    // Once the interval has passed, a request steps once.
    e.on_button_press(Key::Step);
    e.update(300);
    assert_eq!(e.ticks(), 1);
    e.update(10_000);
    assert_eq!(e.ticks(), 1);
    e.on_button_press(Key::Pause);
    assert!(e.is_auto());
    e.on_button_press(Key::Pause);
    assert!(!e.is_auto());
}

#[test]
fn executor_start_on_target_found_on_first_step() {
    let m = GridMap::new(3, 3, vec![vec![0; 3]; 3], Coord::new(1, 1), vec![Coord::new(1, 1)]).unwrap();
    let mut e = Executor::new(Algo::AStar.create(m, Heuristic::Manhattan, false), Algo::AStar.name());
    e.update(201);
    match e.search().status() {
        AlgoStatus::Found(path, closed) => {
            assert_eq!(*path, vec![Coord::new(1, 1)]);
            assert_eq!(*closed, vec![Coord::new(1, 1)]);
        }
        _ => panic!("expected a path"),
    }
    assert_eq!(e.ticks(), 0);
}

#[test]
fn executor_interval_keys() {
    let mut e = executor(2, Coord::new(1, 0));
    e.on_button_press(Key::Faster);
    assert_eq!(e.interval_ms(), 150);
    for _ in 0..5 {
        e.on_button_press(Key::Faster);
    }
    assert_eq!(e.interval_ms(), 0);
    e.on_button_press(Key::Slower);
    e.on_button_press(Key::Slower);
    assert_eq!(e.interval_ms(), 100);
    e.on_button_press(Key::Other);
    assert_eq!(e.interval_ms(), 100);
    assert!(e.is_auto());
}

#[test]
fn executor_stops_counting_when_found() {
    let mut e = executor(3, Coord::new(2, 0));
    let mut now = 0;
    for _ in 0..10 {
        now += 1_000;
        e.update(now);
    }
    assert!(matches!(e.search().status(), AlgoStatus::Found(_, _)));
    assert_eq!(e.ticks(), 2);
}
