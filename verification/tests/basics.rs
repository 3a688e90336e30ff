use rand::rngs::StdRng;
use rand::SeedableRng;
use snake::coordinate::Coordinate;
use snake::direction::Direction;
use snake::hamiltonian::odd;

fn at(x: isize, y: isize) -> Coordinate {
    Coordinate { x, y }
}

#[test]
fn invert_swaps_opposites_and_keeps_markers() {
    assert_eq!(Direction::Left.invert(), Direction::Right);
    assert_eq!(Direction::Right.invert(), Direction::Left);
    assert_eq!(Direction::Up.invert(), Direction::Down);
    assert_eq!(Direction::Down.invert(), Direction::Up);
    assert_eq!(Direction::End.invert(), Direction::End);
    assert_eq!(Direction::Null.invert(), Direction::Null);
}

#[test]
fn invert_twice_is_identity() {
    for d in [
        Direction::Left,
        Direction::Right,
        Direction::Up,
        Direction::Down,
        Direction::End,
        Direction::Null,
    ] {
        assert_eq!(d.invert().invert(), d);
        assert_eq!(d.invert().valid(), d.valid());
    }
}

#[test]
fn only_cardinal_steps_are_valid() {
    assert!(Direction::Left.valid());
    assert!(Direction::Right.valid());
    assert!(Direction::Up.valid());
    assert!(Direction::Down.valid());
    assert!(!Direction::End.valid());
    assert!(!Direction::Null.valid());
}

#[test]
fn from_index_goes_by_remainder() {
    assert_eq!(Direction::from_index(0), Direction::Left);
    assert_eq!(Direction::from_index(1), Direction::Right);
    assert_eq!(Direction::from_index(2), Direction::Up);
    assert_eq!(Direction::from_index(3), Direction::Down);
    assert_eq!(Direction::from_index(4), Direction::Left);
    assert_eq!(Direction::from_index(4_294_967_295), Direction::Down);
    assert_eq!(Direction::from_index(10), Direction::Up);
}

#[test]
fn random_direction_is_cardinal() {
    let mut rng = StdRng::seed_from_u64(7);
    for _ in 0..200 {
        assert!(Direction::random(&mut rng).valid());
    }
}

#[test]
fn symbols_are_distinct() {
    assert_eq!(Direction::Left.symbol(), '\u{1F878}');
    assert_eq!(Direction::Right.symbol(), '\u{1F87A}');
    assert_eq!(Direction::Up.symbol(), '\u{1F879}');
    assert_eq!(Direction::Down.symbol(), '\u{1F87B}');
    assert_eq!(Direction::End.symbol(), '\u{2022}');
    assert_eq!(Direction::Null.symbol(), ' ');
}

#[test]
fn odd_tells_parity() {
    assert!(odd(1));
    assert!(odd(7));
    assert!(odd(-1));
    assert!(odd(-3));
    assert!(!odd(0));
    assert!(!odd(2));
    assert!(!odd(-4));
}

#[test]
fn move_towards_steps_by_unit_vector() {
    let p = at(3, 4);
    assert_eq!(p.move_towards(Direction::Left), at(2, 4));
    assert_eq!(p.move_towards(Direction::Right), at(4, 4));
    assert_eq!(p.move_towards(Direction::Up), at(3, 3));
    assert_eq!(p.move_towards(Direction::Down), at(3, 5));
    assert_eq!(p.move_towards(Direction::End), p);
    assert_eq!(p.move_towards(Direction::Null), p);
}

#[test]
fn move_towards_may_leave_the_positive_quadrant() {
    assert_eq!(at(0, 0).move_towards(Direction::Left), at(-1, 0));
    assert_eq!(at(0, 0).move_towards(Direction::Up), at(0, -1));
}

#[test]
fn step_and_opposite_step_cancel() {
    let p = at(-2, 9);
    for d in [Direction::Left, Direction::Right, Direction::Up, Direction::Down] {
        assert_eq!(p.move_towards(d).move_towards(d.invert()), p);
    }
}

#[test]
fn difference_points_from_self_to_other() {
    assert_eq!(at(1, 2).difference(at(4, 0)), at(3, -2));
    assert_eq!(at(4, 0).difference(at(1, 2)), at(-3, 2));
    assert_eq!(at(5, 5).difference(at(5, 5)), at(0, 0));
}

#[test]
fn reduce_takes_remainders() {
    let bound = at(5, 7);
    assert_eq!(bound.reduce(13, 29), at(3, 1));
    assert_eq!(bound.reduce(0, 0), at(0, 0));
    assert_eq!(bound.reduce(4, 6), at(4, 6));
    assert_eq!(bound.reduce(5, 7), at(0, 0));
    assert_eq!(bound.reduce(usize::MAX, usize::MAX), at((usize::MAX % 5) as isize, (usize::MAX % 7) as isize));
}

#[test]
fn random_point_lies_in_rectangle() {
    let mut rng = StdRng::seed_from_u64(3);
    let bound = at(4, 3);
    let mut seen = [[false; 4]; 3];
    for _ in 0..500 {
        let p = bound.random(&mut rng);
        assert!(0 <= p.x && p.x < 4 && 0 <= p.y && p.y < 3);
        seen[p.y as usize][p.x as usize] = true;
    }
    assert!(seen.iter().all(|row| row.iter().all(|&s| s)));
}

#[test]
fn random_point_draws_x_first() {
    let mut a = StdRng::seed_from_u64(11);
    let mut b = StdRng::seed_from_u64(11);
    let bound = at(9, 7);
    let p = bound.random(&mut a);
    let q = bound.random(&mut b);
    assert_eq!(p, q);
}
