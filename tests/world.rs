use lifegame::world::World;

#[test]
fn test_is_in() {
    let w = World::new(10, 10);

    assert!(w.is_in(0, -1).is_err());
    assert!(w.is_in(-1, 0).is_err());
    assert_eq!(w.is_in(0, 0), Ok((0, 0)));

    assert_eq!(w.is_in(9, 9), Ok((9, 9)));
    assert!(w.is_in(9, 10).is_err());
    assert!(w.is_in(10, 9).is_err());
}

#[test]
fn test_is_live() {
    let mut w = World::new(10, 10);

    w.cells[99] = true;
    assert_eq!(w.is_live(9, 8), false);
    assert_eq!(w.is_live(9, 9), true);
}

#[test]
fn test_set_vec_live() {
    let mut w = World::new(4, 3);

    w.set_lives(0, 0, vec![true, false, true]);
    w.set_lives(1, 1, vec![true, false, true]);
    w.set_lives(1, 2, vec![true, false, true]);

    assert_eq!(w.is_live(0, 0), true);
    assert_eq!(w.is_live(1, 0), false);
    assert_eq!(w.is_live(2, 0), true);
    assert_eq!(w.is_live(1, 1), true);
    assert_eq!(w.is_live(2, 1), false);
    assert_eq!(w.is_live(3, 1), true);
    assert_eq!(w.is_live(1, 2), true);
    assert_eq!(w.is_live(2, 2), false);
    assert_eq!(w.is_live(3, 2), true);
}

#[test]
fn test_dead_or_alive() {
    let mut w = World::new(10, 10);

    w.set_life(9, 9, true);
    assert_eq!(w.cells[99], true);
}

#[test]
fn off_grid_reads_are_dead_whatever_the_buffer_holds() {
    let mut w = World::new(3, 2);
    w.cells = vec![true; 6];
    assert!(w.is_live(0, 0));
    assert!(w.is_live(2, 1));
    assert!(!w.is_live(-1, 0));
    assert!(!w.is_live(0, -1));
    assert!(!w.is_live(3, 0));
    assert!(!w.is_live(0, 2));
    assert!(!w.is_live(isize::MAX, isize::MAX));
    assert!(!w.is_live(isize::MIN, 1));
}

#[test]
fn off_grid_writes_leave_the_buffer_unchanged() {
    let mut w = World::new(3, 2);
    w.set_life(1, 1, true);
    let before = w.snapshot();
    w.set_life(-1, 0, true);
    w.set_life(3, 0, true);
    w.set_life(0, 2, true);
    w.set_life(isize::MIN, isize::MAX, true);
    assert_eq!(w.snapshot(), before);
    assert_eq!(before, vec![false, false, false, false, true, false]);
}

#[test]
fn set_lives_rejects_a_run_past_the_end() {
    let mut w = World::new(2, 2);
    w.set_lives(1, 1, vec![true, true]);
    assert_eq!(w.snapshot(), vec![false; 4]);
    w.set_lives(0, usize::MAX, vec![true]);
    assert_eq!(w.snapshot(), vec![false; 4]);
    w.set_lives(0, 1, vec![true, true]);
    assert_eq!(w.snapshot(), vec![false, false, true, true]);
}

#[test]
fn new_world_is_dead_with_its_dimensions() {
    let w = World::new(4, 3);
    assert_eq!(w.width(), 4);
    assert_eq!(w.height(), 3);
    assert_eq!(w.snapshot(), vec![false; 12]);
}
