use lifegame::game::{compute_band, next_live, Band, Game, Installed};

fn blinker() -> Vec<bool> {
    vec![
        false, false, false,
        true, true, true,
        false, false, false,
    ]
}

fn blinker_turned() -> Vec<bool> {
    vec![
        false, true, false,
        false, true, false,
        false, true, false,
    ]
}

fn padded(v: &[bool], len: usize) -> Vec<bool> {
    let mut r = v.to_vec();
    r.resize(len, false);
    r
}

/// Runs one generation through the band workers and the aggregator on this
/// thread, handing the bands in the given order.
fn farm_generation(g: &mut Game, order: &[usize]) -> Vec<Installed> {
    let world = g.current().clone();
    let mut outcomes = Vec::new();
    for &i in order {
        let band = compute_band(&world, g.band_head(i), g.rows_per_worker());
        outcomes.push(g.install_band(band));
    }
    outcomes
}

#[test]
fn test_new() {
    let v = padded(&[true, true, false, false, true, false], 16);
    let g = Game::new(4, 4, &v);
    let world_a = g.current();
    assert!(world_a.is_live(0, 0));
    assert!(world_a.is_live(1, 0));
    assert!(!world_a.is_live(2, 0));
    assert!(!world_a.is_live(3, 0));
    assert!(world_a.is_live(0, 1));
    assert!(!world_a.is_live(1, 1));
    assert!(!world_a.is_live(2, 1));
    assert!(!world_a.is_live(3, 1));
}

#[test]
fn test_step_blinker() {
    let mut g = Game::new(3, 3, &blinker());

    g.step();

    assert_eq!(g.lives(), blinker_turned());

    g.step();

    assert_eq!(g.lives(), blinker());
}

#[test]
fn test_swap() {
    let v = padded(&[true, true, false, false, true, false], 16);
    let mut g = Game::new(4, 4, &v);
    assert!(g.current().is_live(0, 0));
    g.swap();
    assert!(!g.current().is_live(0, 0));
    g.swap();
    assert!(g.current().is_live(0, 0));
    assert_eq!(g.lives(), v);
}

#[test]
fn test_next_live() {
    let v = vec![
        true, true, true, false, false, false, false, false, false, false,
        false, false, false, false, false, false, false, false, false, false,
        false, false, false, true, true, true, false, false, false, false,
        false, false, false, true, true, true, false, false, false, false,
        false, false, false, false, false, false, false, false, false, false,
        false, false, false, false, false, false, false, false, false, false,
        false, false, false, false, false, false, false, false, false, false,
        true, true, false, false, false, false, false, false, false, false,
        false, true, false, false, false, false, false, false, false, false,
        false, false, false, false, false, false, false, false, false, false,
    ];

    let w = Game::new(10, 10, &v);

    let world_a = w.current();
    assert_eq!(next_live(world_a, 3, 3), true);
    assert_eq!(next_live(world_a, 2, 3), false);
    assert_eq!(next_live(world_a, 6, 4), false);
    assert_eq!(next_live(world_a, 6, 5), false);
    assert_eq!(next_live(world_a, 0, 7), true);
    assert_eq!(next_live(world_a, 0, 8), true);
    assert_eq!(next_live(world_a, 1, 7), true);
    assert_eq!(next_live(world_a, 1, 8), true);
}

#[test]
fn test_step_farm() {
    let mut g = Game::with_workers(3, 3, &blinker(), 2);
    let outcomes = farm_generation(&mut g, &[0, 1]);
    assert_eq!(outcomes, vec![Installed::Pending, Installed::Complete]);
    assert_eq!(g.lives(), blinker_turned());
    let outcomes = farm_generation(&mut g, &[1, 0]);
    assert_eq!(outcomes, vec![Installed::Pending, Installed::Complete]);
    assert_eq!(g.lives(), blinker());
}

/// Every cell of a 3x3 grid whose centre is `now` and whose ring holds
/// `count` live cells.
fn centre_after(now: bool, count: usize) -> bool {
    let ring = [(0, 0), (1, 0), (2, 0), (0, 1), (2, 1), (0, 2), (1, 2), (2, 2)];
    let mut cells = vec![false; 9];
    for &(x, y) in ring.iter().take(count) {
        cells[y * 3 + x] = true;
    }
    cells[4] = now;
    let g = Game::new(3, 3, &cells);
    next_live(g.current(), 1, 1)
}

#[test]
fn rule_table_for_all_neighbour_counts() {
    for count in 0..=8 {
        assert_eq!(centre_after(true, count), count == 2 || count == 3, "live, {}", count);
        assert_eq!(centre_after(false, count), count == 3, "dead, {}", count);
    }
}

#[test]
fn sequential_and_banded_steps_agree() {
    let mut cells = Vec::new();
    for i in 0..(7 * 5) {
        cells.push(i % 3 == 0 || i % 7 == 1);
    }
    for workers in 1..=8 {
        let mut a = Game::with_workers(7, 5, &cells, workers);
        let mut b = Game::with_workers(7, 5, &cells, workers);
        for _ in 0..4 {
            a.step();
            let order: Vec<usize> = (0..workers).rev().collect();
            let outcomes = farm_generation(&mut b, &order);
            assert_eq!(outcomes.last(), Some(&Installed::Complete));
            assert_eq!(a.lives(), b.lives(), "workers {}", workers);
        }
    }
}

#[test]
fn farm_counts_every_band_even_empty_ones() {
    let mut cells = vec![false; 3 * 7];
    cells[3 * 3] = true;
    cells[3 * 3 + 1] = true;
    cells[3 * 3 + 2] = true;
    let mut g = Game::with_workers(3, 7, &cells, 3);
    assert_eq!(g.rows_per_worker(), 3);
    let before = g.lives();
    let world = g.current().clone();
    let bands: Vec<Band> = (0..3)
        .map(|i| compute_band(&world, g.band_head(i), g.rows_per_worker()))
        .collect();
    assert_eq!(bands.iter().map(|b| b.rows).collect::<Vec<_>>(), vec![3, 3, 1]);
    let mut bands = bands.into_iter();
    assert_eq!(g.install_band(bands.next().unwrap()), Installed::Pending);
    assert_eq!(g.lives(), before);
    assert_eq!(g.install_band(bands.next().unwrap()), Installed::Pending);
    assert_eq!(g.lives(), before);
    assert_eq!(g.install_band(bands.next().unwrap()), Installed::Complete);
    let mut expected = Game::with_workers(3, 7, &cells, 3);
    expected.step();
    assert_eq!(g.lives(), expected.lives());
}

#[test]
fn farm_with_more_workers_than_rows_has_empty_bands() {
    let mut g = Game::with_workers(3, 3, &blinker(), 5);
    assert_eq!(g.rows_per_worker(), 1);
    let world = g.current().clone();
    let empty = compute_band(&world, g.band_head(4), g.rows_per_worker());
    assert_eq!(empty.rows, 0);
    assert!(empty.lives.is_empty());
    let outcomes = farm_generation(&mut g, &[4, 3, 0, 1, 2]);
    assert_eq!(outcomes.last(), Some(&Installed::Complete));
    assert_eq!(g.lives(), blinker_turned());
}

#[test]
fn farm_rejects_a_band_twice_or_malformed() {
    let mut g = Game::with_workers(3, 3, &blinker(), 3);
    let world = g.current().clone();
    let first = compute_band(&world, 0, 1);
    assert_eq!(g.install_band(first), Installed::Pending);
    let again = compute_band(&world, 0, 1);
    assert_eq!(g.install_band(again), Installed::Rejected);
    let misaligned = Band { head: 1, rows: 2, lives: vec![false; 6] };
    assert_eq!(g.install_band(misaligned), Installed::Rejected);
    let short = Band { head: 1, rows: 1, lives: vec![false; 2] };
    assert_eq!(g.install_band(short), Installed::Rejected);
    assert_eq!(g.install_band(compute_band(&world, 1, 1)), Installed::Pending);
    assert_eq!(g.install_band(compute_band(&world, 2, 1)), Installed::Complete);
    assert_eq!(g.lives(), blinker_turned());
}

#[test]
fn compute_band_cuts_at_the_last_row() {
    let world = Game::new(3, 3, &blinker()).current().clone();
    let band = compute_band(&world, 1, 5);
    assert_eq!(band.head, 1);
    assert_eq!(band.rows, 2);
    assert_eq!(band.lives, blinker_turned()[3..].to_vec());
    let past = compute_band(&world, 7, 2);
    assert_eq!(past.rows, 0);
    assert!(past.lives.is_empty());
}

#[test]
fn rows_per_worker_rounds_up() {
    let cells = vec![false; 7];
    assert_eq!(Game::with_workers(1, 7, &cells, 3).rows_per_worker(), 3);
    assert_eq!(Game::with_workers(1, 7, &cells, 7).rows_per_worker(), 1);
    assert_eq!(Game::with_workers(1, 7, &cells, 1).rows_per_worker(), 7);
    assert_eq!(Game::with_workers(1, 7, &cells, 2).rows_per_worker(), 4);
    assert_eq!(Game::with_workers(1, 7, &cells, 9).rows_per_worker(), 1);
}

#[test]
fn new_uses_at_least_one_worker() {
    let g = Game::new(3, 3, &blinker());
    assert!(g.workers() >= 1);
    assert_eq!(g.rows_per_worker(), (3 + g.workers() - 1) / g.workers());
}

#[test]
fn swap_twice_restores_current() {
    let mut g = Game::new(3, 3, &blinker());
    g.step();
    let current = g.lives();
    g.swap();
    assert_eq!(g.lives(), blinker());
    g.swap();
    assert_eq!(g.lives(), current);
}

#[test]
fn corner_cells_see_fewer_neighbours() {
    let g = Game::new(2, 2, &vec![true, true, true, false]);
    assert!(next_live(g.current(), 1, 1));
    assert!(next_live(g.current(), 0, 0));
    assert!(!next_live(g.current(), -1, -1));
    assert!(!next_live(g.current(), isize::MAX, 0));
}
