use quacken::debounce::{Debouncer, KeyEvent, KeyEventKind};
use quacken::grid::Grid;

fn grid_with(pressed: &[(usize, usize)]) -> Grid {
    let mut g = Grid::new();
    for &(r, c) in pressed {
        g.put(r, c, true);
    }
    g
}

#[test]
fn press_confirms_after_threshold_consecutive_readings() {
    let mut d = Debouncer::new(3);
    let g = grid_with(&[(0, 0)]);
    assert!(d.events(&g).is_empty());
    assert!(d.events(&g).is_empty());
    let evs = d.events(&g);
    assert_eq!(evs.len(), 1);
    assert_eq!(evs[0], KeyEvent { row: 0, col: 0, kind: KeyEventKind::Press });
    // already confirmed: holding produces nothing further
    assert!(d.events(&g).is_empty());
}

#[test]
fn single_noisy_reading_never_flips() {
    let mut d = Debouncer::new(3);
    let pressed = grid_with(&[(1, 2)]);
    let released = Grid::new();
    // one noisy pressed sample among released ones: no event ever
    assert!(d.events(&pressed).is_empty());
    assert!(d.events(&released).is_empty());
    assert!(d.events(&released).is_empty());
    assert!(d.events(&released).is_empty());
}

#[test]
fn interrupted_run_starts_over() {
    let mut d = Debouncer::new(3);
    let pressed = grid_with(&[(2, 3)]);
    let released = Grid::new();
    assert!(d.events(&pressed).is_empty());
    assert!(d.events(&pressed).is_empty());
    // the run is broken: the counter resets
    assert!(d.events(&released).is_empty());
    assert!(d.events(&pressed).is_empty());
    assert!(d.events(&pressed).is_empty());
    let evs = d.events(&pressed);
    assert_eq!(evs.len(), 1);
    assert_eq!(evs[0].kind, KeyEventKind::Press);
}

#[test]
fn release_confirms_after_threshold_consecutive_readings() {
    let mut d = Debouncer::new(2);
    let pressed = grid_with(&[(0, 5)]);
    let released = Grid::new();
    assert!(d.events(&pressed).is_empty());
    assert_eq!(d.events(&pressed).len(), 1);
    assert!(d.events(&released).is_empty());
    let evs = d.events(&released);
    assert_eq!(evs.len(), 1);
    assert_eq!(evs[0], KeyEvent { row: 0, col: 5, kind: KeyEventKind::Release });
}

#[test]
fn events_come_in_row_major_order() {
    let mut d = Debouncer::new(1);
    let g = grid_with(&[(2, 1), (0, 4), (0, 2), (3, 11)]);
    let evs = d.events(&g);
    let coords: Vec<(usize, usize)> = evs.iter().map(|e| (e.row, e.col)).collect();
    assert_eq!(coords, vec![(0, 2), (0, 4), (2, 1), (3, 11)]);
}

#[test]
fn steady_grid_emits_nothing() {
    let mut d = Debouncer::new(2);
    let g = grid_with(&[(1, 1)]);
    let _ = d.events(&g);
    let _ = d.events(&g);
    // settled now: further identical scans are silent
    for _ in 0..5 {
        assert!(d.events(&g).is_empty());
    }
}
