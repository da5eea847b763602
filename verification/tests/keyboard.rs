use quacken::coord::Topology;
use quacken::grid::PhysGrid;
use quacken::keyboard::{Keyboard, usb_rx};
use quacken::keymap::{Action, Layer, MacroStep};
use quacken::report::{HidReport, REPORT_CAPACITY, assemble};

const CELLS: usize = 48;

fn base_with(cells: &[(usize, u8)]) -> Layer {
    let mut actions: Vec<Action> = Vec::new();
    for _ in 0..CELLS {
        actions.push(Action::NoOp);
    }
    let mut l = Layer { actions };
    for &(idx, code) in cells {
        l.actions[idx] = Action::Key(code);
    }
    l
}

fn topo() -> Topology {
    Topology { folded: true, rotated: false }
}

#[test]
fn single_key_press_reports_on_threshold_tick() {
    // logical (0,0) bound to key code 4 ('A'), threshold 5, held 6 ticks
    let kb_layers = vec![base_with(&[(0, 4)])];
    let mut kb = Keyboard::new(kb_layers, 5, topo());
    let mut samples = PhysGrid::new();
    samples.put(0, 0, true);  // physical (0,0) maps to logical (0,0)
    for tick in 1..=6 {
        let out = kb.tick(&samples, true);
        if tick == 5 {
            let rep = out.expect("press must be confirmed on tick 5");
            assert_eq!(rep.keys, vec![4]);
            assert_eq!(rep.modifiers, 0);
        } else {
            assert!(out.is_none(), "no report change on tick {}", tick);
        }
    }
    // release: confirmed after another 5 ticks
    let released = PhysGrid::new();
    for tick in 1..=6 {
        let out = kb.tick(&released, true);
        if tick == 5 {
            let rep = out.expect("release must be confirmed on tick 5");
            assert_eq!(rep.keys, Vec::<u8>::new());
        } else {
            assert!(out.is_none());
        }
    }
}

#[test]
fn seven_keys_truncate_to_capacity_without_duplicates() {
    // seven distinct plain keys pressed at once, capacity six
    let coords = [(0usize, 10u8), (1, 11), (2, 12), (3, 13), (4, 14), (5, 15), (12, 16)];
    let kb_layers = vec![base_with(&coords)];
    let mut kb = Keyboard::new(kb_layers, 1, topo());
    let mut samples = PhysGrid::new();
    // logical (0, c) for c < 6 is physical (0, c); logical (1, 0) is physical (1, 0)
    for c in 0..6 {
        samples.put(0, c, true);
    }
    samples.put(1, 0, true);
    let rep = kb.tick(&samples, true).expect("first confirmed scan must report");
    assert_eq!(rep.keys.len(), REPORT_CAPACITY);
    // first-asserted (row-major) codes retained, the newest dropped
    assert_eq!(rep.keys, vec![10, 11, 12, 13, 14, 15]);
    let mut sorted = rep.keys.clone();
    sorted.sort();
    sorted.dedup();
    assert_eq!(sorted.len(), REPORT_CAPACITY, "no duplicates");
}

#[test]
fn steady_held_keys_report_nothing_new() {
    let kb_layers = vec![base_with(&[(0, 4)])];
    let mut kb = Keyboard::new(kb_layers, 2, topo());
    let mut samples = PhysGrid::new();
    samples.put(0, 0, true);
    assert!(kb.tick(&samples, true).is_none());
    assert!(kb.tick(&samples, true).is_some());
    // identical held switches from now on: never a new report
    for _ in 0..10 {
        assert!(kb.tick(&samples, true).is_none());
    }
}

#[test]
fn unconfigured_usb_suppresses_reports_but_pipeline_runs() {
    let kb_layers = vec![base_with(&[(0, 4)])];
    let mut kb = Keyboard::new(kb_layers, 1, topo());
    let mut samples = PhysGrid::new();
    samples.put(0, 0, true);
    assert!(kb.tick(&samples, false).is_none());
    // the key was debounced and asserted while unconfigured; once the host
    // configures the device the report goes out at the next tick
    let out = kb.tick(&samples, true);
    assert_eq!(out.expect("configured tick must report").keys, vec![4]);
}

#[test]
fn rotated_board_reports_the_rotated_key() {
    // physical (4,3) on a rotated board is electrical position (0,0)
    let kb_layers = vec![base_with(&[(8, 7)])];  // logical (0,8) -> code 7
    let mut kb = Keyboard::new(kb_layers, 1, Topology { folded: true, rotated: true });
    let mut samples = PhysGrid::new();
    samples.put(0, 0, true);  // maps through rotation to (4,3), folds to (0,8)
    let rep = kb.tick(&samples, true).expect("must report");
    assert_eq!(rep.keys, vec![7]);
}

#[test]
fn layer_hold_released_first_keeps_other_key_reported() {
    // (0,0) holds layer 1; (0,1) resolves through layer 1 to Z (0x1d)
    let mut base = base_with(&[(1, 4)]);
    base.actions[0] = Action::LayerHold(1);
    let mut upper_actions: Vec<Action> = Vec::new();
    for _ in 0..CELLS {
        upper_actions.push(Action::Transparent);
    }
    let mut upper = Layer { actions: upper_actions };
    upper.actions[1] = Action::Key(0x1d);
    let mut kb = Keyboard::new(vec![base, upper], 1, topo());

    let mut samples = PhysGrid::new();
    samples.put(0, 0, true);
    assert!(kb.tick(&samples, true).is_none()); // hold key asserts no code
    samples.put(0, 1, true);
    let rep = kb.tick(&samples, true).expect("Z must be reported");
    assert_eq!(rep.keys, vec![0x1d]);
    // release the hold key first: layer 1 is popped, Z must stay reported
    samples.put(0, 0, false);
    assert!(kb.tick(&samples, true).is_none(), "report must not change");
    // only Z's own release clears it
    samples.put(0, 1, false);
    let rep = kb.tick(&samples, true).expect("release must be reported");
    assert_eq!(rep.keys, Vec::<u8>::new());
}

#[test]
fn assemble_deduplicates_and_folds_modifiers() {
    let keys = vec![4u8, 5, 4, 6, 5];
    let mods = vec![1u8, 1, 0];
    let rep = assemble(&keys, &mods);
    assert_eq!(rep.keys, vec![4, 5, 6]);
    assert_eq!(rep.modifiers, 0b11);
}

#[test]
fn reports_compare_by_contents() {
    let a = assemble(&vec![4u8, 5], &vec![0u8]);
    let b = assemble(&vec![4u8, 5, 4], &vec![0u8, 0]);
    assert_eq!(a, b);
    let c = assemble(&vec![5u8, 4], &vec![0u8]);
    assert!(a != c);
    let empty = HidReport::new();
    assert_eq!(empty.keys.len(), 0);
    assert_eq!(empty.modifiers, 0);
}

#[test]
fn modifier_and_key_fold_into_one_report() {
    let mut base = base_with(&[(1, 4)]);
    base.actions[0] = Action::Modifier(1); // left shift bit
    let mut kb = Keyboard::new(vec![base], 1, topo());
    let mut samples = PhysGrid::new();
    samples.put(0, 0, true);
    samples.put(0, 1, true);
    let rep = kb.tick(&samples, true).expect("must report");
    assert_eq!(rep.modifiers, 0b10);
    assert_eq!(rep.keys, vec![4]);
}

#[test]
fn macro_reports_steps_across_ticks() {
    let mut base = base_with(&[]);
    base.actions[0] = Action::Macro(vec![
        MacroStep { press: true, modifier: false, value: 5 },
        MacroStep { press: false, modifier: false, value: 5 },
    ]);
    let mut kb = Keyboard::new(vec![base], 1, topo());
    let mut samples = PhysGrid::new();
    samples.put(0, 0, true);
    // press tick: macro armed, nothing asserted yet, step one runs in the
    // same tick's macro phase
    let rep = kb.tick(&samples, true).expect("step one must report");
    assert_eq!(rep.keys, vec![5]);
    let rep = kb.tick(&samples, true).expect("step two must report");
    assert_eq!(rep.keys, Vec::<u8>::new());
    // expansion finished: steady from here on
    assert!(kb.tick(&samples, true).is_none());
}

#[test]
fn usb_rx_pumps_class_exactly_when_device_polled_work() {
    assert!(usb_rx(true));
    assert!(!usb_rx(false));
}
