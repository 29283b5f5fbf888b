use sandbox_bridge::signal::ProtocolError;
use sandbox_bridge::sim::{
    move_by, rand, rand_range, rand_step, rand_usize, srand, step, Actors, Grid, Position, State, GRID_H, GRID_W,
};

#[test]
fn generator_sequence() {
    let mut r = srand(0);
    assert_eq!(rand_usize(&mut r), 959);
    assert_eq!(rand_usize(&mut r), 7672);
    assert_eq!(r.value, 7672);
    let mut w = srand(u32::MAX);
    // (u32::MAX + 137) wraps to 136, then * 7.
    assert_eq!(rand_usize(&mut w), 952);
}

#[test]
fn generator_signed_and_steps() {
    let mut r = srand(0x7fff_ffff);
    // (0x7fff_ffff + 137) * 7 wraps to 0x8000_03b8, a negative i32.
    assert_eq!(rand(&mut r), 0x8000_03b8u32 as i32);
    let mut s = srand(0);
    assert_eq!(rand_step(&mut s), 1);
    assert_eq!(rand_step(&mut s), 0);
    let mut t = srand(12345);
    for _ in 0..1000 {
        let v = rand_step(&mut t);
        assert!((-1..=1).contains(&v));
    }
}

#[test]
fn step_is_sign() {
    assert_eq!(step(17), 1);
    assert_eq!(step(-3), -1);
    assert_eq!(step(0), 0);
    assert_eq!(step(i32::MIN), -1);
}

#[test]
fn states_decode() {
    assert_eq!(State::from(0), State::Walking);
    assert_eq!(State::from(1), State::Running);
    assert_eq!(State::from(2), State::Dead);
    assert_eq!(State::decode(3), Err(ProtocolError::UnknownSignal(3)));
}

#[test]
fn grid_init_walls_border() {
    let mut g = Grid::new(GRID_W, GRID_H);
    g.init();
    for x in 0..GRID_W {
        assert_eq!(g.get(x, 0), 1);
        assert_eq!(g.get(x, GRID_H - 1), 1);
    }
    for y in 0..GRID_H {
        assert_eq!(g.get(0, y), 1);
        assert_eq!(g.get(GRID_W - 1, y), 1);
    }
    g.modify();
    assert_eq!(g.get(0, 0), 1);
}

#[test]
fn grid_border_and_flip() {
    let mut g = Grid::new(5, 4);
    g.clear_with_border();
    assert_eq!(g.get(0, 2), 1);
    assert_eq!(g.get(2, 2), 0);
    g.flip(2, 2);
    assert_eq!(g.get(2, 2), 1);
    g.flip(2, 2);
    assert_eq!(g.get(2, 2), 0);
    g.set(1, 1, 1);
    assert_eq!(g.get(1, 1), 1);
    assert_eq!(g.width(), 5);
    assert_eq!(g.height(), 4);
}

#[test]
fn rand_range_stays_in_range() {
    for _ in 0..200 {
        let v = rand_range(3, 7);
        assert!((3..=7).contains(&v));
    }
    assert_eq!(rand_range(4, 4), 4);
    let draws: Vec<i32> = (0..200).map(|_| rand_range(0, 1000)).collect();
    assert!(draws.iter().any(|&v| v != 0));
    assert!(draws.iter().any(|&v| v != 1000));
}

#[test]
fn move_into_open_cell() {
    let mut g = Grid::new(5, 5);
    g.clear_with_border();
    let (mut x, mut y) = (2usize, 2usize);
    let mut r = srand(0);
    move_by(&g, &mut x, &mut y, 10, -4, &mut r);
    assert_eq!((x, y), (3, 1));
    assert_eq!(r.value, 0);
}

#[test]
fn move_off_grid_stays() {
    let g = Grid::new(3, 3);
    let (mut x, mut y) = (0usize, 0usize);
    let mut r = srand(0);
    move_by(&g, &mut x, &mut y, -1, 0, &mut r);
    assert_eq!((x, y), (0, 0));
    assert_eq!(r.value, 0);
}

#[test]
fn move_into_wall_tries_random_step() {
    let mut g = Grid::new(5, 5);
    g.clear_with_border();
    g.set(3, 2, 1);
    let (mut x, mut y) = (2usize, 2usize);
    // Draws 959 (step 1) then 7672 (step 0): the detour is (3, 2), a wall.
    let mut r = srand(0);
    move_by(&g, &mut x, &mut y, 1, 0, &mut r);
    assert_eq!((x, y), (2, 2));
    assert_eq!(r.value, 7672);
    g.set(3, 2, 0);
    g.set(3, 3, 1);
    let (mut x, mut y) = (2usize, 2usize);
    let mut r = srand(0);
    move_by(&g, &mut x, &mut y, 1, 1, &mut r);
    assert_eq!((x, y), (3, 2));
}

#[test]
fn actors_read_layout() {
    let data = vec![0, 0, 7, 9, 1, 2, 0, 3, 4, 2, 5, 6, 9];
    let a = Actors::new(data);
    assert_eq!(a.hunter(), Position { x: 7, y: 9 });
    assert_eq!(a.runner(0), Ok((Position { x: 1, y: 2 }, State::Walking)));
    assert_eq!(a.runner(1), Ok((Position { x: 3, y: 4 }, State::Dead)));
    assert_eq!(a.runner(2), Err(ProtocolError::UnknownSignal(9)));
}
