//! Keymap configuration: the action bound to each logical coordinate on each
//! layer.  Layer 0 is the base layer; it is consumed read-only by the layout
//! engine.

use vstd::prelude::*;
use crate::coord::{COLS, ROWS};

verus! {

/// One step of a macro: press or release one key code or one modifier bit.
#[derive(Clone, Copy, PartialEq, Eq, Structural, Debug)]
pub struct MacroStep {
    /// `true` presses, `false` releases.
    pub press: bool,
    /// `true` targets a modifier bit, `false` a plain key code.
    pub modifier: bool,
    /// The key code, or the modifier bit index (`0..8`).
    pub value: u8,
}

/// The action a key cell is bound to.
pub enum Action {
    /// Fall through to the next lower layer.
    Transparent,
    /// Do nothing.
    NoOp,
    /// Assert a plain key code while held.
    Key(u8),
    /// Assert a modifier bit (`0..8`) while held.
    Modifier(u8),
    /// Run an ordered sequence of press/release steps, one per tick.
    Macro(Vec<MacroStep>),
    /// Keep a layer active while held.
    LayerHold(usize),
    /// Flip a layer's membership in the active stack on each press.
    LayerToggle(usize),
}

/// One layer: an action per logical coordinate, row-major.
pub struct Layer {
    pub actions: Vec<Action>,
}

impl Layer {
    /// The layer covers the whole logical grid.
    pub open spec fn wf(&self) -> bool {
        self.actions@.len() == ROWS * COLS
    }
}

/// Every layer covers the grid and at least the base layer exists.
pub open spec fn layers_wf(layers: Seq<Layer>) -> bool {
    &&& layers.len() >= 1
    &&& forall|l: int| 0 <= l < layers.len() ==> #[trigger] layers[l].wf()
}

} // verus!
