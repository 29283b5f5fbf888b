use sandbox_bridge::sim::{
    hunter_start, hunter_tick, runner_tick, scatter_runners, srand, Grid, Hunter, Runner, State,
};

fn open_grid(w: i32, h: i32) -> Grid {
    let mut g = Grid::new(w, h);
    g.clear_with_border();
    g
}

#[test]
fn hunter_chases_nearest_live_runner() {
    let g = open_grid(20, 20);
    let mut hunter = Hunter { x: 10, y: 10 };
    let runners = vec![
        Runner { x: 11, y: 10, state: State::Dead },
        Runner { x: 15, y: 15, state: State::Walking },
        Runner { x: 8, y: 12, state: State::Running },
        Runner { x: 12, y: 8, state: State::Walking },
    ];
    let mut rng = srand(0);
    hunter_tick(&g, &mut hunter, &runners, &mut rng);
    // Runners 2 and 3 are equally near; the first of them wins.
    assert_eq!(hunter, Hunter { x: 9, y: 11 });
    assert_eq!(rng.value, 0);
}

#[test]
fn hunter_stays_without_targets() {
    let g = open_grid(10, 10);
    let mut hunter = Hunter { x: 5, y: 5 };
    let runners = vec![Runner { x: 1, y: 1, state: State::Dead }];
    let mut rng = srand(3);
    hunter_tick(&g, &mut hunter, &runners, &mut rng);
    assert_eq!(hunter, Hunter { x: 5, y: 5 });
}

#[test]
fn runners_react_to_hunter() {
    let g = open_grid(40, 40);
    let hunter = Hunter { x: 20, y: 20 };
    let mut runners = vec![
        Runner { x: 20, y: 20, state: State::Walking },
        Runner { x: 5, y: 5, state: State::Running },
        Runner { x: 22, y: 21, state: State::Walking },
        Runner { x: 3, y: 3, state: State::Dead },
    ];
    let before = runners.clone();
    let mut rng = srand(42);
    runner_tick(&g, &mut runners, hunter, &mut rng);
    assert_eq!(runners[0], Runner { x: 20, y: 20, state: State::Dead });
    assert_eq!(runners[1].state, State::Walking);
    assert_eq!(runners[2].state, State::Running);
    assert_eq!(runners[3], before[3]);
    for i in 1..3 {
        assert!((runners[i].x as i64 - before[i].x as i64).abs() <= 1);
        assert!((runners[i].y as i64 - before[i].y as i64).abs() <= 1);
        assert_eq!(g.get(runners[i].x as i32, runners[i].y as i32), 0);
    }
}

#[test]
fn start_positions() {
    let g = open_grid(50, 30);
    assert_eq!(hunter_start(&g), Hunter { x: 25, y: 15 });
    let mut runners = vec![Runner { x: 0, y: 0, state: State::Dead }; 15];
    let mut rng = srand(7);
    scatter_runners(&g, &mut runners, &mut rng);
    // First draws from seed 7: (7 + 137) * 7 = 1008, then (1008 + 137) * 7 = 8015.
    assert_eq!(runners[0], Runner { x: 1 + 1008 % 48, y: 1 + 8015 % 28, state: State::Walking });
    for r in &runners {
        assert_eq!(r.state, State::Walking);
        assert!(r.x >= 1 && r.x < 49 && r.y >= 1 && r.y < 29);
    }
}
