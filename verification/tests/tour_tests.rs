use snake::coordinate::Coordinate;
use snake::direction::Direction;
use snake::hamiltonian::next_hamiltonian_direction;

fn at(x: isize, y: isize) -> Coordinate {
    Coordinate { x, y }
}

/// Follows the tour from `start` until it is back there and returns the cells
/// passed, `start` first.
fn lap(w: isize, h: isize, start: Coordinate, apple: Coordinate) -> Vec<Coordinate> {
    let mut cells = vec![start];
    let mut pos = start;
    loop {
        let d = next_hamiltonian_direction(w, h, pos, apple);
        assert!(d.valid());
        pos = pos.move_towards(d);
        assert!(0 <= pos.x && pos.x < w && 0 <= pos.y && pos.y < h);
        if pos == start {
            return cells;
        }
        assert!(!cells.contains(&pos));
        assert!(cells.len() < (w * h) as usize);
        cells.push(pos);
    }
}

fn assert_full_cycle_from_every_cell(w: isize, h: isize) {
    for sy in 0..h {
        for sx in 0..w {
            for apple in [at(0, 0), at(w - 1, h - 1), at(w - 1, 0)] {
                let cells = lap(w, h, at(sx, sy), apple);
                assert_eq!(cells.len(), (w * h) as usize);
            }
        }
    }
}

#[test]
fn tour_closes_on_4_by_4() {
    assert_full_cycle_from_every_cell(4, 4);
}

#[test]
fn tour_closes_on_4_by_5() {
    assert_full_cycle_from_every_cell(4, 5);
}

#[test]
fn tour_closes_on_5_by_4() {
    assert_full_cycle_from_every_cell(5, 4);
}

#[test]
fn tour_closes_on_small_and_thin_boards() {
    assert_full_cycle_from_every_cell(2, 2);
    assert_full_cycle_from_every_cell(2, 3);
    assert_full_cycle_from_every_cell(3, 2);
    assert_full_cycle_from_every_cell(2, 9);
    assert_full_cycle_from_every_cell(9, 2);
    assert_full_cycle_from_every_cell(7, 6);
    assert_full_cycle_from_every_cell(8, 7);
}

/// On a board with an odd number of cells no closed tour of all cells exists.
/// The tour then leaves out one of two cells near the top right corner: the
/// corner itself while the apple is below the top row, its lower left
/// neighbour while the apple is in the top row.
fn assert_odd_board(w: isize, h: isize) {
    for apple in [at(0, 1), at(w - 2, 1), at(w - 1, h - 1)] {
        let cells = lap(w, h, at(0, 0), apple);
        assert_eq!(cells.len(), (w * h - 1) as usize);
        assert!(!cells.contains(&at(w - 1, 0)));
        assert!(cells.contains(&apple));
    }
    for apple in [at(0, 0), at(w - 1, 0), at(w - 2, 0)] {
        let cells = lap(w, h, at(0, 0), apple);
        assert_eq!(cells.len(), (w * h - 1) as usize);
        assert!(!cells.contains(&at(w - 2, 1)));
        assert!(cells.contains(&apple));
    }
}

#[test]
fn tour_on_5_by_5_leaves_out_one_cell() {
    assert_odd_board(5, 5);
}

#[test]
fn tour_on_3_by_7_leaves_out_one_cell() {
    assert_odd_board(3, 7);
}

#[test]
fn left_out_cell_leads_back_onto_the_tour() {
    let apple = at(0, 3);
    assert_eq!(next_hamiltonian_direction(5, 5, at(4, 0), apple), Direction::Left);
    let apple = at(2, 0);
    assert_eq!(next_hamiltonian_direction(5, 5, at(3, 1), apple), Direction::Up);
}

#[test]
fn tour_steps_on_4_by_4() {
    let apple = at(2, 2);
    let expected = [
        [Direction::Down, Direction::Left, Direction::Left, Direction::Left],
        [Direction::Down, Direction::Right, Direction::Down, Direction::Up],
        [Direction::Down, Direction::Up, Direction::Down, Direction::Up],
        [Direction::Right, Direction::Up, Direction::Right, Direction::Up],
    ];
    for y in 0..4 {
        for x in 0..4 {
            assert_eq!(
                next_hamiltonian_direction(4, 4, at(x, y), apple),
                expected[y as usize][x as usize]
            );
        }
    }
}

#[test]
fn tour_steps_on_3_by_4() {
    let apple = at(0, 0);
    let expected = [
        [Direction::Down, Direction::Left, Direction::Left],
        [Direction::Down, Direction::Right, Direction::Up],
        [Direction::Down, Direction::Up, Direction::Left],
        [Direction::Right, Direction::Right, Direction::Up],
    ];
    for y in 0..4 {
        for x in 0..3 {
            assert_eq!(
                next_hamiltonian_direction(3, 4, at(x, y), apple),
                expected[y as usize][x as usize]
            );
        }
    }
}

#[test]
fn corner_case_depends_on_the_apples_row() {
    assert_eq!(next_hamiltonian_direction(5, 5, at(4, 1), at(2, 0)), Direction::Up);
    assert_eq!(next_hamiltonian_direction(5, 5, at(4, 1), at(2, 1)), Direction::Left);
    assert_eq!(next_hamiltonian_direction(5, 4, at(4, 1), at(2, 0)), Direction::Up);
    assert_eq!(next_hamiltonian_direction(5, 4, at(4, 1), at(2, 1)), Direction::Up);
    assert_eq!(next_hamiltonian_direction(4, 5, at(3, 1), at(2, 1)), Direction::Up);
}
