use rand::rngs::StdRng;
use rand::SeedableRng;
use snake::coordinate::Coordinate;
use snake::direction::Direction;
use snake::field::Field;

fn at(x: isize, y: isize) -> Coordinate {
    Coordinate { x, y }
}

/// A 4 x 3 field with the snake (0,0) -> (1,0) -> (1,1) -> (2,1), last cell (2,1).
fn sample() -> Field {
    let mut field = Field::init(at(4, 3));
    field.set(at(0, 0), Direction::Right);
    field.set(at(1, 0), Direction::Down);
    field.set(at(1, 1), Direction::Right);
    field.set(at(2, 1), Direction::End);
    field
}

#[test]
fn new_field_is_free_everywhere() {
    let field = Field::init(at(4, 3));
    assert_eq!(field.dimension(), at(4, 3));
    for y in 0..3 {
        for x in 0..4 {
            assert_eq!(field.get(at(x, y)), Direction::Null);
            assert!(field.available(at(x, y)));
        }
    }
}

#[test]
fn set_changes_one_cell() {
    let mut field = Field::init(at(3, 3));
    field.set(at(2, 1), Direction::Up);
    for y in 0..3 {
        for x in 0..3 {
            let expected = if (x, y) == (2, 1) { Direction::Up } else { Direction::Null };
            assert_eq!(field.get(at(x, y)), expected);
        }
    }
    assert!(!field.available(at(2, 1)));
    field.set(at(2, 1), Direction::Null);
    assert!(field.available(at(2, 1)));
}

#[test]
fn valid_tests_all_four_bounds() {
    let field = Field::init(at(4, 3));
    assert!(field.valid(at(0, 0)));
    assert!(field.valid(at(3, 2)));
    assert!(!field.valid(at(-1, 0)));
    assert!(!field.valid(at(0, -1)));
    assert!(!field.valid(at(4, 0)));
    assert!(!field.valid(at(0, 3)));
    assert!(!field.valid(at(4, 3)));
}

#[test]
fn next_follows_the_stored_step() {
    let field = sample();
    assert_eq!(field.next(at(0, 0)), at(1, 0));
    assert_eq!(field.next(at(1, 0)), at(1, 1));
    assert_eq!(field.next(at(1, 1)), at(2, 1));
    assert_eq!(field.next(at(2, 1)), at(2, 1));
    assert_eq!(field.next(at(3, 2)), at(3, 2));
}

#[test]
fn last_two_finds_the_end_of_the_chain() {
    let field = sample();
    assert_eq!(field.last_two(at(0, 0)), (at(1, 1), at(2, 1)));
    assert_eq!(field.last_two(at(1, 0)), (at(1, 1), at(2, 1)));
    assert_eq!(field.last_two(at(1, 1)), (at(1, 1), at(2, 1)));
    assert_eq!(field.last_two(at(2, 1)), (at(2, 1), at(2, 1)));
}

#[test]
fn drop_last_vacates_tail_and_marks_predecessor() {
    let mut field = sample();
    let dropped = field.drop_last(at(0, 0));
    assert_eq!(dropped, at(2, 1));
    assert_eq!(field.get(dropped), Direction::Null);
    assert_eq!(field.get(at(1, 1)), Direction::End);
    assert_eq!(field.get(at(0, 0)), Direction::Right);
    assert_eq!(field.get(at(1, 0)), Direction::Down);
    let occupied: usize = (0..3)
        .map(|y| (0..4).filter(|&x| !field.available(at(x, y))).count())
        .sum();
    assert_eq!(occupied, 3);
}

#[test]
fn drop_last_repeated_shortens_to_the_head() {
    let mut field = sample();
    assert_eq!(field.drop_last(at(0, 0)), at(2, 1));
    assert_eq!(field.drop_last(at(0, 0)), at(1, 1));
    assert_eq!(field.drop_last(at(0, 0)), at(1, 0));
    assert_eq!(field.get(at(0, 0)), Direction::End);
    assert_eq!(field.last_two(at(0, 0)), (at(0, 0), at(0, 0)));
}

#[test]
fn drop_last_of_single_cell_frees_it() {
    let mut field = Field::init(at(2, 2));
    field.set(at(1, 1), Direction::End);
    assert_eq!(field.drop_last(at(1, 1)), at(1, 1));
    assert_eq!(field.get(at(1, 1)), Direction::Null);
}

#[test]
fn scan_starts_at_offset_and_goes_row_by_row() {
    let field = Field::init(at(4, 3));
    assert_eq!(field.first_available_from(at(2, 1)), Some(at(2, 1)));
    let mut field = Field::init(at(4, 3));
    field.set(at(2, 1), Direction::End);
    assert_eq!(field.first_available_from(at(2, 1)), Some(at(3, 1)));
    field.set(at(3, 1), Direction::Up);
    assert_eq!(field.first_available_from(at(2, 1)), Some(at(0, 1)));
    field.set(at(0, 1), Direction::Up);
    field.set(at(1, 1), Direction::Up);
    assert_eq!(field.first_available_from(at(2, 1)), Some(at(2, 2)));
}

#[test]
fn scan_wraps_around_both_axes() {
    let mut field = Field::init(at(3, 2));
    for y in 0..2 {
        for x in 0..3 {
            field.set(at(x, y), Direction::Left);
        }
    }
    field.set(at(0, 0), Direction::Null);
    assert_eq!(field.first_available_from(at(1, 1)), Some(at(0, 0)));
    field.set(at(0, 0), Direction::Left);
    field.set(at(0, 1), Direction::Null);
    assert_eq!(field.first_available_from(at(1, 1)), Some(at(0, 1)));
}

#[test]
fn scan_order_is_fixed_for_a_fixed_offset() {
    let mut field = Field::init(at(5, 4));
    field.set(at(3, 2), Direction::End);
    let first = field.first_available_from(at(3, 2));
    for _ in 0..10 {
        assert_eq!(field.first_available_from(at(3, 2)), first);
    }
    assert_eq!(first, Some(at(4, 2)));
}

#[test]
fn single_free_cell_is_found_from_every_offset() {
    let mut field = Field::init(at(4, 3));
    for y in 0..3 {
        for x in 0..4 {
            field.set(at(x, y), Direction::Left);
        }
    }
    field.set(at(1, 2), Direction::Null);
    for y in 0..3 {
        for x in 0..4 {
            assert_eq!(field.first_available_from(at(x, y)), Some(at(1, 2)));
        }
    }
    let mut rng = StdRng::seed_from_u64(5);
    for _ in 0..50 {
        assert_eq!(field.random_available(&mut rng), Some(at(1, 2)));
    }
}

#[test]
fn full_field_has_no_free_cell() {
    let mut field = Field::init(at(3, 3));
    for y in 0..3 {
        for x in 0..3 {
            field.set(at(x, y), Direction::Up);
        }
    }
    assert_eq!(field.first_available_from(at(0, 0)), None);
    assert_eq!(field.first_available_from(at(2, 1)), None);
    let mut rng = StdRng::seed_from_u64(5);
    assert_eq!(field.random_available(&mut rng), None);
}

#[test]
fn random_available_never_picks_an_occupied_cell() {
    let field = sample();
    let mut rng = StdRng::seed_from_u64(99);
    for _ in 0..300 {
        let p = field.random_available(&mut rng).unwrap();
        assert!(field.valid(p));
        assert!(field.available(p));
    }
}

#[test]
fn random_available_is_reproducible_under_a_seed() {
    let field = sample();
    let mut a = StdRng::seed_from_u64(1234);
    let mut b = StdRng::seed_from_u64(1234);
    for _ in 0..50 {
        assert_eq!(field.random_available(&mut a), field.random_available(&mut b));
    }
}
