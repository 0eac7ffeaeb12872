use conway::{Cell, IndicesEnumerate, Life};
use rand::rngs::StdRng;
use rand::SeedableRng;

fn live_cells(life: &Life) -> Vec<(usize, usize)> {
    let mut out = Vec::new();
    let mut it = life.enumerate_indices();
    while let Some((x, y)) = it.next() {
        if life.get(x, y) == Cell::Alive {
            out.push((x, y));
        }
    }
    out
}

fn all_positions(mut it: IndicesEnumerate) -> Vec<(usize, usize)> {
    let mut out = Vec::new();
    while let Some(p) = it.next() {
        out.push(p);
    }
    out
}

#[test]
fn new_grid_is_dead_and_enumerates_every_cell_once() {
    let life = Life::new(5, 3);
    assert_eq!(life.width(), 5);
    assert_eq!(life.height(), 3);
    let positions = all_positions(life.enumerate_indices());
    assert_eq!(positions.len(), 15);
    let mut sorted = positions.clone();
    sorted.sort();
    sorted.dedup();
    assert_eq!(sorted.len(), 15);
    for &(x, y) in &positions {
        assert!(x < 5 && y < 3);
        assert_eq!(life.get(x, y), Cell::Dead);
    }
}

#[test]
fn empty_grid_has_no_positions() {
    assert!(all_positions(Life::new(0, 0).enumerate_indices()).is_empty());
    assert!(all_positions(Life::new(0, 4).enumerate_indices()).is_empty());
    assert!(all_positions(Life::new(4, 0).enumerate_indices()).is_empty());
}

#[test]
fn enumeration_is_row_major() {
    let life = Life::new(3, 2);
    let mut it = life.enumerate_indices();
    assert_eq!(it.next(), Some((0, 0)));
    assert_eq!(it.next(), Some((1, 0)));
    assert_eq!(it.next(), Some((2, 0)));
    assert_eq!(it.next(), Some((0, 1)));
    assert_eq!(it.next(), Some((1, 1)));
    assert_eq!(it.next(), Some((2, 1)));
    assert_eq!(it.next(), None);
    assert_eq!(it.next(), None);
    assert_eq!(all_positions(life.enumerate_indices()).len(), 6);
}

#[test]
fn neighbour_count_wraps_diagonally() {
    let mut life = Life::new(3, 3);
    life.set(0, 0, Cell::Alive);
    assert_eq!(life.count_neigbours((2, 2)), 1);
    assert_eq!(life.count_neigbours((1, 1)), 1);
    assert_eq!(life.count_neigbours((0, 0)), 0);
}

#[test]
fn neighbour_count_of_full_torus() {
    let mut life = Life::new(3, 3);
    for y in 0..3 {
        for x in 0..3 {
            life.set(x, y, Cell::Alive);
        }
    }
    assert_eq!(life.count_neigbours((1, 1)), 8);
    assert_eq!(life.count_neigbours((0, 2)), 8);
    // every cell is overcrowded
    assert!(live_cells(&life.next()).is_empty());
}

#[test]
fn glider_moves_diagonally_in_four_generations() {
    let mut life = Life::new(10, 10);
    life.read_from(" # \n  #\n###\n");
    let start = live_cells(&life);
    assert_eq!(start, vec![(1, 0), (2, 1), (0, 2), (1, 2), (2, 2)]);
    let mut g = life;
    for _ in 0..4 {
        g = g.next();
    }
    let moved: Vec<(usize, usize)> = start.iter().map(|&(x, y)| (x + 1, y + 1)).collect();
    assert_eq!(live_cells(&g), moved);
}

#[test]
fn block_is_a_still_life() {
    let mut life = Life::new(6, 6);
    for &(x, y) in &[(2, 2), (3, 2), (2, 3), (3, 3)] {
        life.set(x, y, Cell::Alive);
    }
    let next = life.next();
    assert_eq!(next, life);
    assert_eq!(live_cells(&next), vec![(2, 2), (3, 2), (2, 3), (3, 3)]);
}

#[test]
fn lonely_and_crowded_cells_die() {
    let mut lonely = Life::new(5, 5);
    lonely.set(2, 2, Cell::Alive);
    assert_eq!(lonely.count_neigbours((2, 2)), 0);
    assert_eq!(lonely.next().get(2, 2), Cell::Dead);

    let mut one = Life::new(5, 5);
    one.set(2, 2, Cell::Alive);
    one.set(1, 2, Cell::Alive);
    assert_eq!(one.next().get(2, 2), Cell::Dead);

    let mut crowded = Life::new(5, 5);
    for &(x, y) in &[(2, 2), (1, 1), (3, 1), (1, 3), (3, 3)] {
        crowded.set(x, y, Cell::Alive);
    }
    assert_eq!(crowded.count_neigbours((2, 2)), 4);
    assert_eq!(crowded.next().get(2, 2), Cell::Dead);

    let mut two = Life::new(5, 5);
    two.set(1, 1, Cell::Alive);
    two.set(3, 3, Cell::Alive);
    assert_eq!(two.count_neigbours((2, 2)), 2);
    assert_eq!(two.next().get(2, 2), Cell::Dead);
}

#[test]
fn dead_cell_with_three_neighbours_comes_alive() {
    let mut life = Life::new(5, 5);
    for &(x, y) in &[(1, 1), (3, 1), (2, 3)] {
        life.set(x, y, Cell::Alive);
    }
    assert_eq!(life.count_neigbours((2, 2)), 3);
    assert_eq!(life.next().get(2, 2), Cell::Alive);
}

#[test]
fn blinker_oscillates() {
    let mut life = Life::new(5, 5);
    life.read_from("\n  #\n  #\n  #\n");
    let next = life.next();
    assert_eq!(live_cells(&next), vec![(1, 2), (2, 2), (3, 2)]);
    assert_eq!(next.next(), life);
}

#[test]
fn next_leaves_receiver_unchanged() {
    let mut life = Life::new(8, 8);
    life.read_from(".#.\n..#\n###\n");
    let before = life.clone();
    let a = life.next();
    let b = life.next();
    assert_eq!(a, b);
    assert_eq!(life, before);
}

#[test]
fn read_from_replaces_the_whole_grid() {
    let mut life = Life::new(4, 3);
    life.set(0, 0, Cell::Alive);
    life.set(3, 2, Cell::Alive);
    life.read_from("|..|\n|.#|\n");
    // every character but white space and the pipe marks a live cell
    assert_eq!(live_cells(&life), vec![(1, 0), (2, 0), (1, 1), (2, 1)]);
    life.read_from("|  |\n| #|\n");
    assert_eq!(live_cells(&life), vec![(2, 1)]);
}

#[test]
fn read_from_treats_unicode_white_space_as_dead() {
    let mut life = Life::new(6, 2);
    life.read_from("a\tb\u{3000}c\r\n\u{a0}d");
    assert_eq!(live_cells(&life), vec![(0, 0), (2, 0), (4, 0), (1, 1)]);
}

#[test]
fn read_from_drops_marks_outside_the_grid() {
    let mut life = Life::new(2, 2);
    life.read_from("#####\n.\n##\n##\n");
    assert_eq!(live_cells(&life), vec![(0, 0), (1, 0), (0, 1)]);
}

#[test]
fn read_from_empty_text_clears() {
    let mut life = Life::new(3, 3);
    life.set(1, 1, Cell::Alive);
    life.read_from("");
    assert!(live_cells(&life).is_empty());
}

#[test]
fn cell_from_bool() {
    assert_eq!(Cell::from(true), Cell::Alive);
    assert_eq!(Cell::from(false), Cell::Dead);
}

#[test]
fn apply_draws_follows_the_draws() {
    let mut life = Life::new(2, 2);
    life.apply_draws(&vec![true, false, false, true]);
    assert_eq!(live_cells(&life), vec![(0, 0), (1, 1)]);
}

#[test]
fn randomize_with_seed_gives_a_quarter_alive() {
    let mut life = Life::new(100, 100);
    let mut rng = StdRng::seed_from_u64(7);
    let draws = life.randomize_with(&mut rng);
    assert_eq!(draws.len(), 10000);
    let mut it = life.enumerate_indices();
    let mut k: usize = 0;
    while let Some((x, y)) = it.next() {
        assert_eq!(life.get(x, y), Cell::from(draws[k]));
        k += 1;
    }
    let alive = live_cells(&life).len();
    assert_eq!(alive, draws.iter().filter(|&&d| d).count());
    assert!(alive > 2200 && alive < 2800, "alive = {}", alive);

    let mut again = Life::new(100, 100);
    let mut rng = StdRng::seed_from_u64(7);
    again.randomize_with(&mut rng);
    assert_eq!(again, life);
}

#[test]
fn randomize_keeps_size() {
    let mut life = Life::new(40, 30);
    assert!(life.randomize());
    assert_eq!(life.width(), 40);
    assert_eq!(life.height(), 30);
    let alive = live_cells(&life).len();
    assert!(alive > 0 && alive < 1200);
}

#[test]
fn block_in_smallest_surrounding_grid_is_still() {
    let mut life = Life::new(4, 4);
    life.read_from("    \n ## \n ## \n    \n");
    assert_eq!(live_cells(&life), vec![(1, 1), (2, 1), (1, 2), (2, 2)]);
    assert_eq!(life.count_neigbours((0, 0)), 1);
    assert_eq!(life.count_neigbours((3, 3)), 1);
    assert_eq!(life.count_neigbours((0, 1)), 2);
    assert_eq!(life.count_neigbours((1, 1)), 3);
    assert_eq!(life.next(), life);
}

#[test]
fn glider_crosses_the_edge() {
    let mut life = Life::new(10, 10);
    for &(x, y) in &[(9, 8), (0, 9), (8, 0), (9, 0), (0, 0)] {
        life.set(x, y, Cell::Alive);
    }
    let mut g = life;
    for _ in 0..4 {
        g = g.next();
    }
    let mut expected = vec![(0, 9), (1, 0), (9, 1), (0, 1), (1, 1)];
    expected.sort_by_key(|&(x, y)| (y, x));
    assert_eq!(live_cells(&g), expected);
}
