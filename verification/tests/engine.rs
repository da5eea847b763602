use quacken::engine::Layout;
use quacken::keymap::{Action, Layer, MacroStep};

const CELLS: usize = 48;

fn layer_of(cells: &[(usize, Action)]) -> Layer {
    let mut actions: Vec<Action> = Vec::new();
    for _ in 0..CELLS {
        actions.push(Action::NoOp);
    }
    let mut l = Layer { actions };
    for (idx, a) in cells {
        l.actions[*idx] = match a {
            Action::Transparent => Action::Transparent,
            Action::NoOp => Action::NoOp,
            Action::Key(k) => Action::Key(*k),
            Action::Modifier(m) => Action::Modifier(*m),
            Action::Macro(steps) => Action::Macro(steps.clone()),
            Action::LayerHold(l2) => Action::LayerHold(*l2),
            Action::LayerToggle(l2) => Action::LayerToggle(*l2),
        };
    }
    l
}

fn transparent_layer(cells: &[(usize, Action)]) -> Layer {
    let mut actions: Vec<Action> = Vec::new();
    for _ in 0..CELLS {
        actions.push(Action::Transparent);
    }
    let mut l = Layer { actions };
    for (idx, a) in cells {
        l.actions[*idx] = match a {
            Action::Key(k) => Action::Key(*k),
            _ => Action::NoOp,
        };
    }
    l
}

#[test]
fn plain_key_press_and_release() {
    let base = layer_of(&[(0, Action::Key(4))]);
    let mut e = Layout::new(vec![base]);
    e.press(0, 0);
    assert_eq!(e.keycodes(), vec![4]);
    e.release(0, 0);
    assert_eq!(e.keycodes(), Vec::<u8>::new());
}

#[test]
fn press_time_binding_survives_layer_pop() {
    // (0,0) holds layer 1; (0,1) resolves to Z (0x1d) through layer 1.
    let base = layer_of(&[(0, Action::LayerHold(1)), (1, Action::Key(4))]);
    let upper = transparent_layer(&[(1, Action::Key(0x1d))]);
    let mut e = Layout::new(vec![base, upper]);
    e.press(0, 0);
    assert_eq!(e.stack, vec![0, 1]);
    e.press(0, 1);
    assert_eq!(e.keycodes(), vec![0x1d]);
    // the hold key goes first: layer 1 is popped ...
    e.release(0, 0);
    assert_eq!(e.stack, vec![0]);
    // ... but Z stays asserted until its own release
    assert_eq!(e.keycodes(), vec![0x1d]);
    e.release(0, 1);
    assert_eq!(e.keycodes(), Vec::<u8>::new());
}

#[test]
fn toggle_flips_membership() {
    let base = layer_of(&[(0, Action::LayerToggle(1)), (1, Action::Key(5))]);
    let upper = transparent_layer(&[(1, Action::Key(6))]);
    let mut e = Layout::new(vec![base, upper]);
    e.press(0, 0);
    e.release(0, 0);
    assert_eq!(e.stack, vec![0, 1]);
    e.press(0, 1);
    assert_eq!(e.keycodes(), vec![6]);
    e.release(0, 1);
    e.press(0, 0);
    e.release(0, 0);
    assert_eq!(e.stack, vec![0]);
    e.press(0, 1);
    assert_eq!(e.keycodes(), vec![5]);
}

#[test]
fn stack_depth_never_exceeds_layer_count() {
    // every key on the base layer holds layer 1: two layers configured
    let mut cells: Vec<(usize, Action)> = Vec::new();
    for i in 0..CELLS {
        cells.push((i, Action::LayerHold(1)));
    }
    let base = layer_of(&cells);
    let upper = transparent_layer(&[]);
    let mut e = Layout::new(vec![base, upper]);
    for c in 0..12 {
        e.press(0, c);
        assert!(e.stack.len() <= 2);
    }
    for c in 0..12 {
        e.release(0, c);
    }
    assert_eq!(e.stack, vec![0]);
}

#[test]
fn modifier_folds_into_mod_list() {
    let base = layer_of(&[(0, Action::Modifier(1)), (1, Action::Modifier(1))]);
    let mut e = Layout::new(vec![base]);
    e.press(0, 0);
    e.press(0, 1);
    assert_eq!(e.mods, vec![1, 1]);
    e.release(0, 0);
    // the other key still holds the modifier
    assert_eq!(e.mods, vec![1]);
}

fn cut_macro() -> Vec<MacroStep> {
    vec![
        MacroStep { press: true, modifier: true, value: 0 },
        MacroStep { press: true, modifier: false, value: 27 },
        MacroStep { press: false, modifier: false, value: 27 },
        MacroStep { press: false, modifier: true, value: 0 },
    ]
}

#[test]
fn macro_runs_its_steps_in_order_one_per_tick() {
    let base = layer_of(&[(0, Action::Macro(cut_macro()))]);
    let mut e = Layout::new(vec![base]);
    e.press(0, 0);
    assert_eq!(e.keycodes(), Vec::<u8>::new());
    e.tick();
    assert_eq!(e.mods, vec![0]);
    e.tick();
    assert_eq!(e.keycodes(), vec![27]);
    e.tick();
    assert_eq!(e.keycodes(), Vec::<u8>::new());
    assert_eq!(e.mods, vec![0]);
    e.tick();
    assert_eq!(e.mods, Vec::<u8>::new());
    // expansion done: further ticks change nothing
    e.tick();
    assert_eq!(e.keycodes(), Vec::<u8>::new());
    assert_eq!(e.mods, Vec::<u8>::new());
    e.release(0, 0);
    assert_eq!(e.keycodes(), Vec::<u8>::new());
}

#[test]
fn early_release_takes_back_macro_presses() {
    let base = layer_of(&[(0, Action::Macro(cut_macro()))]);
    let mut e = Layout::new(vec![base]);
    e.press(0, 0);
    e.tick();
    e.tick();
    // mid-sequence: modifier 0 and key 27 are asserted by the macro
    assert_eq!(e.keycodes(), vec![27]);
    assert_eq!(e.mods, vec![0]);
    e.release(0, 0);
    // every press the macro made has been matched by a release
    assert_eq!(e.keycodes(), Vec::<u8>::new());
    assert_eq!(e.mods, Vec::<u8>::new());
}

#[test]
fn release_without_binding_is_a_no_op() {
    let base = layer_of(&[(0, Action::Key(4))]);
    let mut e = Layout::new(vec![base]);
    e.release(2, 7);
    assert_eq!(e.keycodes(), Vec::<u8>::new());
    assert_eq!(e.stack, vec![0]);
}

#[test]
fn transparent_falls_through_to_base() {
    let base = layer_of(&[(5, Action::Key(9))]);
    let upper = transparent_layer(&[]);
    let mut e = Layout::new(vec![base, upper]);
    // activate layer 1 via a toggle placed on base
    e.layers[0].actions[0] = Action::LayerToggle(1);
    e.press(0, 0);
    e.release(0, 0);
    assert_eq!(e.stack, vec![0, 1]);
    // (0,5) is transparent on layer 1 and resolves through to the base key
    e.press(0, 5);
    assert_eq!(e.keycodes(), vec![9]);
}
