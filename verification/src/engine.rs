//! Layout engine: the layered key-action state machine.
//!
//! A press resolves its action by scanning the active layer stack from top
//! to bottom, skipping transparent cells, and stores the resolved action as
//! the coordinate's held binding.  That press-time binding — not the layer
//! stack at release time — governs what the matching release undoes.  The
//! stack holds layer ids, base layer `0` always at the bottom, and its depth
//! never exceeds the number of configured layers.  In-flight macros advance
//! one step per tick and record what they asserted, so an early release can
//! take back every code the macro still holds.

use vstd::prelude::*;
use crate::coord::{COLS, ROWS};
use crate::debounce::{KeyEvent, KeyEventKind};
use crate::keymap::{Action, Layer, MacroStep, layers_wf};
use vstd::multiset::Multiset;

verus! {

// ---------------------------------------------------------------------------
// Removing one occurrence from an asserted-code list.
// ---------------------------------------------------------------------------

/// Index of the first occurrence of `v` in `s`, or `-1`.
pub open spec fn spec_first_index(s: Seq<u8>, v: u8) -> int
    decreases s.len(),
{
    if s.len() == 0 {
        -1
    } else if s[0] == v {
        0
    } else {
        let r = spec_first_index(s.drop_first(), v);
        if r < 0 {
            -1
        } else {
            r + 1
        }
    }
}

/// `s` with the first occurrence of `v` removed; `s` itself if `v` does not
/// occur.
pub open spec fn spec_remove_first(s: Seq<u8>, v: u8) -> Seq<u8> {
    if spec_first_index(s, v) < 0 {
        s
    } else {
        s.remove(spec_first_index(s, v))
    }
}

/// What `spec_first_index` finds: the first occurrence if there is one.
pub proof fn lemma_first_index(s: Seq<u8>, v: u8)
    ensures
        s.contains(v) <==> spec_first_index(s, v) >= 0,
        spec_first_index(s, v) >= 0 ==> 0 <= spec_first_index(s, v) < s.len() && s[spec_first_index(
            s,
            v,
        )] == v && forall|j: int| 0 <= j < spec_first_index(s, v) ==> s[j] != v,
    decreases s.len(),
{
    if s.len() > 0 && s[0] != v {
        lemma_first_index(s.drop_first(), v);
        assert(forall|j: int| 0 <= j < s.drop_first().len() ==> s.drop_first()[j] == s[j + 1]);
        if s.contains(v) {
            let w = choose|w: int| 0 <= w < s.len() && s[w] == v;
            assert(s.drop_first()[w - 1] == v);
            assert(s.drop_first().contains(v));
        }
        if spec_first_index(s, v) >= 0 {
            let r = spec_first_index(s.drop_first(), v);
            assert(s[r + 1] == s.drop_first()[r]);
            assert forall|j: int| 0 <= j < r + 1 implies s[j] != v by {
                if j > 0 {
                    assert(s[j] == s.drop_first()[j - 1]);
                }
            }
        }
    }
}

/// If `s[i]` is `v` and nothing before `i` is, then `i` is the first
/// occurrence.
proof fn lemma_first_index_found(s: Seq<u8>, v: u8, i: int)
    requires
        0 <= i < s.len(),
        s[i] == v,
        forall|j: int| 0 <= j < i ==> s[j] != v,
    ensures
        spec_first_index(s, v) == i,
    decreases s.len(),
{
    if i > 0 {
        assert(s.drop_first()[i - 1] == s[i]);
        assert(forall|j: int| 0 <= j < i - 1 ==> s.drop_first()[j] == s[j + 1]);
        lemma_first_index_found(s.drop_first(), v, i - 1);
    }
}

/// Whether `x` occurs in `v`.
fn has_code(v: &Vec<u8>, x: u8) -> (r: bool)
    ensures
        r == v@.contains(x),
{
    let mut i: usize = 0;
    while i < v.len()
        invariant
            i <= v@.len(),
            forall|j: int| 0 <= j < i ==> v@[j] != x,
        decreases v@.len() - i,
    {
        if v[i] == x {
            assert(v@.contains(x));
            return true;
        }
        i = i + 1;
    }
    return false;
}

/// Removes the first occurrence of `x` from `v`, if any.
fn remove_first_code(v: &mut Vec<u8>, x: u8)
    ensures
        final(v)@ == spec_remove_first(old(v)@, x),
{
    proof {
        lemma_first_index(old(v)@, x);
    }
    let mut i: usize = 0;
    while i < v.len()
        invariant
            v@ == old(v)@,
            i <= v@.len(),
            forall|j: int| 0 <= j < i ==> v@[j] != x,
        decreases v@.len() - i,
    {
        if v[i] == x {
            proof {
                assert(v@.contains(x));
                lemma_first_index_found(v@, x, i as int);
            }
            v.remove(i);
            return ;
        }
        i = i + 1;
    }
    proof {
        assert(!v@.contains(x));
    }
}

// ---------------------------------------------------------------------------
// The layer stack.
// ---------------------------------------------------------------------------

/// Index of the topmost occurrence of `l` strictly above the base slot, or
/// `-1`.  The base slot itself is never a candidate, so the base layer can
/// never be removed.
pub open spec fn spec_top_index(stack: Seq<usize>, l: usize) -> int
    decreases stack.len(),
{
    if stack.len() <= 1 {
        -1
    } else if stack.last() == l {
        stack.len() - 1
    } else {
        spec_top_index(stack.drop_last(), l)
    }
}

/// What `spec_top_index` finds: the topmost occurrence above the base slot.
pub proof fn lemma_top_index(stack: Seq<usize>, l: usize)
    ensures
        spec_top_index(stack, l) >= 0 ==> 1 <= spec_top_index(stack, l) < stack.len() && stack[
            spec_top_index(stack, l)
        ] == l && forall|j: int| spec_top_index(stack, l) < j < stack.len() ==> stack[j] != l,
        spec_top_index(stack, l) < 0 ==> forall|j: int| 1 <= j < stack.len() ==> stack[j] != l,
    decreases stack.len(),
{
    if stack.len() > 1 && stack.last() != l {
        lemma_top_index(stack.drop_last(), l);
        assert(forall|j: int| 0 <= j < stack.len() - 1 ==> stack.drop_last()[j] == stack[j]);
    }
}

/// The stack with the topmost occurrence of `l` above the base slot removed;
/// the stack itself if there is none.
pub open spec fn spec_remove_top(stack: Seq<usize>, l: usize) -> Seq<usize> {
    if spec_top_index(stack, l) < 0 {
        stack
    } else {
        stack.remove(spec_top_index(stack, l))
    }
}

/// A layer-toggle press: flips membership of `l` in the stack.  Toggling the
/// base layer, an unknown layer, or pushing past the depth bound is ignored.
pub open spec fn spec_toggle(stack: Seq<usize>, l: usize, nlayers: int) -> Seq<usize> {
    if l == 0 {
        stack
    } else if spec_top_index(stack, l) >= 0 {
        stack.remove(spec_top_index(stack, l))
    } else if l < nlayers && stack.len() < nlayers {
        stack.push(l)
    } else {
        stack
    }
}

/// Finds the topmost occurrence of `l` above the base slot.
fn top_index(stack: &Vec<usize>, l: usize) -> (r: (bool, usize))
    ensures
        r.0 <==> spec_top_index(stack@, l) >= 0,
        r.0 ==> r.1 == spec_top_index(stack@, l),
    decreases stack@.len(),
{
    proof {
        lemma_top_index(stack@, l);
    }
    let mut i: usize = stack.len();
    while i > 1
        invariant
            i <= stack@.len(),
            forall|j: int| i <= j < stack@.len() ==> stack@[j] != l,
        decreases i,
    {
        if stack[i - 1] == l {
            proof {
                lemma_top_index_found(stack@, l, i - 1);
            }
            return (true, i - 1);
        }
        i = i - 1;
    }
    (false, 0)
}

/// If `stack[i]` is `l`, `i` is above the base slot, and nothing above `i`
/// is `l`, then `i` is the topmost occurrence.
proof fn lemma_top_index_found(stack: Seq<usize>, l: usize, i: int)
    requires
        1 <= i < stack.len(),
        stack[i] == l,
        forall|j: int| i < j < stack.len() ==> stack[j] != l,
    ensures
        spec_top_index(stack, l) == i,
    decreases stack.len(),
{
    if i < stack.len() - 1 {
        assert(stack.last() != l);
        lemma_top_index_found(stack.drop_last(), l, i);
        assert(forall|j: int| 0 <= j < stack.len() - 1 ==> stack.drop_last()[j] == stack[j]);
    }
}

// ---------------------------------------------------------------------------
// Action resolution.
// ---------------------------------------------------------------------------

/// Resolves the action for cell `idx` by scanning the top `k` stack entries
/// from the top down, skipping transparent cells.  Falling through the whole
/// stack resolves to no-op.
pub open spec fn spec_resolve_rec(layers: Seq<Layer>, stack: Seq<usize>, k: int, idx: int) -> Action
    decreases k,
{
    if k <= 0 {
        Action::NoOp
    } else {
        let a = layers[stack[k - 1] as int].actions@[idx];
        match a {
            Action::Transparent => spec_resolve_rec(layers, stack, k - 1, idx),
            _ => a,
        }
    }
}

/// The action the full active stack resolves for cell `idx`.
pub open spec fn spec_resolve(layers: Seq<Layer>, stack: Seq<usize>, idx: int) -> Action {
    spec_resolve_rec(layers, stack, stack.len() as int, idx)
}

/// An owned copy of a resolved action, decoupled from the keymap storage.
pub enum Resolved {
    RKey(u8),
    RMod(u8),
    RHold(usize),
    RToggle(usize),
    RMacro(Vec<MacroStep>),
    RNone,
}

/// `r` is an owned copy of resolved action `a`.
pub open spec fn resolved_matches(a: Action, r: Resolved) -> bool {
    match a {
        Action::Transparent => r is RNone,
        Action::NoOp => r is RNone,
        Action::Key(k) => r matches Resolved::RKey(k2) && k2 == k,
        Action::Modifier(m) => r matches Resolved::RMod(m2) && m2 == m,
        Action::Macro(steps) => r matches Resolved::RMacro(s2) && s2@ == steps@,
        Action::LayerHold(l) => r matches Resolved::RHold(l2) && l2 == l,
        Action::LayerToggle(l) => r matches Resolved::RToggle(l2) && l2 == l,
    }
}

/// Copies a macro step list.
fn copy_steps(v: &Vec<MacroStep>) -> (r: Vec<MacroStep>)
    ensures
        r@ == v@,
{
    let mut r: Vec<MacroStep> = Vec::new();
    let mut i: usize = 0;
    while i < v.len()
        invariant
            i <= v@.len(),
            r@ == v@.subrange(0, i as int),
        decreases v@.len() - i,
    {
        r.push(v[i]);
        proof {
            assert(r@ =~= v@.subrange(0, i + 1));
        }
        i = i + 1;
    }
    proof {
        assert(r@ =~= v@);
    }
    r
}

// ---------------------------------------------------------------------------
// Flushing a macro's live codes.
// ---------------------------------------------------------------------------

/// Removes, for each code in `live` in order, one occurrence from `global`:
/// what taking back a macro's outstanding assertions leaves behind.
pub open spec fn spec_flush(global: Seq<u8>, live: Seq<u8>) -> Seq<u8>
    decreases live.len(),
{
    if live.len() == 0 {
        global
    } else {
        spec_flush(spec_remove_first(global, live[0]), live.drop_first())
    }
}

/// Removes one occurrence of each code in `live`, in order, from `v`.
fn flush_codes(v: &mut Vec<u8>, live: &Vec<u8>)
    ensures
        final(v)@ == spec_flush(old(v)@, live@),
{
    proof {
        assert(live@.skip(0) =~= live@);
    }
    let mut i: usize = 0;
    while i < live.len()
        invariant
            i <= live@.len(),
            spec_flush(old(v)@, live@) == spec_flush(v@, live@.skip(i as int)),
        decreases live@.len() - i,
    {
        let ghost pre = v@;
        remove_first_code(v, live[i]);
        proof {
            assert(live@.skip(i as int)[0] == live@[i as int]);
            assert(live@.skip(i as int).drop_first() =~= live@.skip(i + 1));
        }
        i = i + 1;
    }
    proof {
        assert(live@.skip(live@.len() as int).len() == 0);
    }
}

/// Removing an occurrence keeps every remaining element's bound: used for
/// the modifier-bit range invariant.
pub proof fn lemma_remove_first_keeps_bound(s: Seq<u8>, v: u8)
    requires
        forall|i: int| 0 <= i < s.len() ==> s[i] < 8,
    ensures
        forall|i: int| 0 <= i < spec_remove_first(s, v).len() ==> spec_remove_first(s, v)[i] < 8,
{
    lemma_first_index(s, v);
}

/// Flushing keeps every remaining element's bound.
pub proof fn lemma_flush_keeps_bound(global: Seq<u8>, live: Seq<u8>)
    requires
        forall|i: int| 0 <= i < global.len() ==> global[i] < 8,
    ensures
        forall|i: int| 0 <= i < spec_flush(global, live).len() ==> spec_flush(global, live)[i] < 8,
    decreases live.len(),
{
    if live.len() > 0 {
        lemma_remove_first_keeps_bound(global, live[0]);
        lemma_flush_keeps_bound(spec_remove_first(global, live[0]), live.drop_first());
        assert(spec_flush(global, live) == spec_flush(
            spec_remove_first(global, live[0]),
            live.drop_first(),
        ));
        assert forall|i: int| 0 <= i < spec_flush(global, live).len() implies spec_flush(
            global,
            live,
        )[i] < 8 by {
            assert(spec_flush(spec_remove_first(global, live[0]), live.drop_first())[i] < 8);
        }
    }
}

// ---------------------------------------------------------------------------
// The engine state.
// ---------------------------------------------------------------------------

/// What a pressed coordinate is bound to: enough of the press-time resolved
/// action to undo it at release.
pub enum Held {
    /// A plain key code to deassert.
    HeldKey { code: u8 },
    /// A modifier bit to deassert.
    HeldMod { bit: u8 },
    /// A layer hold: the layer id, and whether the press actually pushed it.
    HeldLayer { layer: usize, pushed: bool },
    /// An in-flight macro: its steps, the next step to run, and the codes it
    /// currently holds asserted.
    HeldMacro { steps: Vec<MacroStep>, cursor: usize, live_keys: Vec<u8>, live_mods: Vec<u8> },
    /// Nothing to undo (no-op, transparent fallthrough, or layer toggle).
    HeldNone,
}

/// The layout engine.
pub struct Layout {
    /// The keymap, layer 0 first; read-only configuration.
    pub layers: Vec<Layer>,
    /// Active layer ids, base at the bottom, most recent on top.
    pub stack: Vec<usize>,
    /// Per-coordinate held binding, row-major; `None` while idle.
    pub bindings: Vec<Option<Held>>,
    /// Asserted key codes in assertion order, duplicates kept.
    pub keys: Vec<u8>,
    /// Asserted modifier bits in assertion order, duplicates kept.
    pub mods: Vec<u8>,
}

/// A binding is well formed: modifier bits in range, macro cursor within its
/// steps.
pub open spec fn binding_wf(b: Option<Held>) -> bool {
    match b {
        Some(Held::HeldMod { bit }) => bit < 8,
        Some(Held::HeldMacro { steps, cursor, live_keys, live_mods }) => {
            &&& cursor <= steps@.len()
            &&& forall|i: int| 0 <= i < live_mods@.len() ==> live_mods@[i] < 8
        },
        _ => true,
    }
}

/// The macro step cell `b` would run this tick, if any.
pub open spec fn spec_cell_step(b: Option<Held>) -> Option<MacroStep> {
    match b {
        Some(Held::HeldMacro { steps, cursor, live_keys, live_mods }) => {
            if cursor < steps@.len() {
                Some(steps@[cursor as int])
            } else {
                None
            }
        },
        _ => None,
    }
}

/// Effect of one binding's tick step on the global asserted lists: a press
/// step asserts its code, a release step takes back one occurrence — but
/// only of a code this macro still holds.
pub open spec fn spec_step_globals(keys: Seq<u8>, mods: Seq<u8>, b: Option<Held>) -> (
    Seq<u8>,
    Seq<u8>,
) {
    match b {
        Some(Held::HeldMacro { steps, cursor, live_keys, live_mods }) => {
            if cursor < steps@.len() {
                let st = steps@[cursor as int];
                if st.press && !st.modifier {
                    (keys.push(st.value), mods)
                } else if st.press && st.modifier {
                    if st.value < 8 {
                        (keys, mods.push(st.value))
                    } else {
                        (keys, mods)
                    }
                } else if !st.modifier {
                    if live_keys@.contains(st.value) {
                        (spec_remove_first(keys, st.value), mods)
                    } else {
                        (keys, mods)
                    }
                } else {
                    if live_mods@.contains(st.value) {
                        (keys, spec_remove_first(mods, st.value))
                    } else {
                        (keys, mods)
                    }
                }
            } else {
                (keys, mods)
            }
        },
        _ => (keys, mods),
    }
}

/// The global asserted lists after the cells below `n` ran their tick steps
/// in row-major order.
pub open spec fn spec_tick_globals(
    bindings: Seq<Option<Held>>,
    keys: Seq<u8>,
    mods: Seq<u8>,
    n: int,
) -> (Seq<u8>, Seq<u8>)
    decreases n,
{
    if n <= 0 {
        (keys, mods)
    } else {
        let prev = spec_tick_globals(bindings, keys, mods, n - 1);
        spec_step_globals(prev.0, prev.1, bindings[n - 1])
    }
}

/// How one binding evolves across a tick: an in-flight macro runs its next
/// step (advancing its cursor and its record of held codes), everything
/// else stays as it is.
pub open spec fn tick_binding(pre_b: Option<Held>, post_b: Option<Held>) -> bool {
    match pre_b {
        Some(Held::HeldMacro { steps, cursor, live_keys, live_mods }) => {
            if cursor < steps@.len() {
                let st = steps@[cursor as int];
                match post_b {
                    Some(
                        Held::HeldMacro {
                            steps: steps2,
                            cursor: cursor2,
                            live_keys: lk2,
                            live_mods: lm2,
                        },
                    ) => {
                        &&& steps2@ == steps@
                        &&& cursor2 == cursor + 1
                        &&& if st.press && !st.modifier {
                            lk2@ == live_keys@.push(st.value) && lm2@ == live_mods@
                        } else if st.press && st.modifier {
                            lk2@ == live_keys@ && lm2@ == if st.value < 8 {
                                live_mods@.push(st.value)
                            } else {
                                live_mods@
                            }
                        } else if !st.modifier {
                            lk2@ == spec_remove_first(live_keys@, st.value) && lm2@ == live_mods@
                        } else {
                            lk2@ == live_keys@ && lm2@ == spec_remove_first(live_mods@, st.value)
                        }
                    },
                    _ => false,
                }
            } else {
                post_b == pre_b
            }
        },
        _ => post_b == pre_b,
    }
}

/// Cells without an in-flight macro step leave the global lists alone.
pub proof fn lemma_tick_globals_inactive(
    bindings: Seq<Option<Held>>,
    keys: Seq<u8>,
    mods: Seq<u8>,
    n: int,
)
    requires
        forall|j: int| 0 <= j < n ==> spec_cell_step(#[trigger] bindings[j]) is None,
    ensures
        spec_tick_globals(bindings, keys, mods, n) == (keys, mods),
    decreases n,
{
    if n > 0 {
        lemma_tick_globals_inactive(bindings, keys, mods, n - 1);
    }
}

/// Everything a press leaves untouched stayed untouched, and what it
/// changed is exactly the press effect of the action the pre-state stack
/// resolves: the binding records that action, keys/modifier/stack move as
/// its kind demands.  A press on a coordinate that is already held changes
/// nothing.
pub open spec fn press_post(pre: Layout, post: Layout, idx: int) -> bool {
    let a = spec_resolve(pre.layers@, pre.stack@, idx);
    let nlayers = pre.layers@.len() as int;
    &&& post.layers@ == pre.layers@
    &&& if pre.bindings@[idx] is Some {
        &&& post.stack@ == pre.stack@
        &&& post.bindings@ == pre.bindings@
        &&& post.keys@ == pre.keys@
        &&& post.mods@ == pre.mods@
    } else {
        &&& post.bindings@.len() == pre.bindings@.len()
        &&& forall|j: int|
            0 <= j < pre.bindings@.len() && j != idx ==> post.bindings@[j] == pre.bindings@[j]
        &&& match a {
            Action::Key(k) => {
                &&& post.bindings@[idx] == Some(Held::HeldKey { code: k })
                &&& post.keys@ == pre.keys@.push(k)
                &&& post.mods@ == pre.mods@
                &&& post.stack@ == pre.stack@
            },
            Action::Modifier(m) => {
                &&& post.keys@ == pre.keys@
                &&& post.stack@ == pre.stack@
                &&& if m < 8 {
                    post.bindings@[idx] == Some(Held::HeldMod { bit: m }) && post.mods@
                        == pre.mods@.push(m)
                } else {
                    post.bindings@[idx] == Some(Held::HeldNone) && post.mods@ == pre.mods@
                }
            },
            Action::LayerHold(l) => {
                let pushed = l < nlayers && pre.stack@.len() < nlayers;
                &&& post.bindings@[idx] == Some(Held::HeldLayer { layer: l, pushed })
                &&& post.stack@ == if pushed {
                    pre.stack@.push(l)
                } else {
                    pre.stack@
                }
                &&& post.keys@ == pre.keys@
                &&& post.mods@ == pre.mods@
            },
            Action::LayerToggle(l) => {
                &&& post.bindings@[idx] == Some(Held::HeldNone)
                &&& post.stack@ == spec_toggle(pre.stack@, l, nlayers)
                &&& post.keys@ == pre.keys@
                &&& post.mods@ == pre.mods@
            },
            Action::Macro(ms) => {
                &&& match post.bindings@[idx] {
                    Some(Held::HeldMacro { steps, cursor, live_keys, live_mods }) => {
                        &&& steps@ == ms@
                        &&& cursor == 0
                        &&& live_keys@.len() == 0
                        &&& live_mods@.len() == 0
                    },
                    _ => false,
                }
                &&& post.keys@ == pre.keys@
                &&& post.mods@ == pre.mods@
                &&& post.stack@ == pre.stack@
            },
            _ => {
                &&& post.bindings@[idx] == Some(Held::HeldNone)
                &&& post.keys@ == pre.keys@
                &&& post.mods@ == pre.mods@
                &&& post.stack@ == pre.stack@
            },
        }
    }
}

/// A release undoes exactly what the press-time binding recorded — a held
/// key code or modifier loses one occurrence, a hold-pushed layer's topmost
/// occurrence is popped whatever else reached the stack in between, a macro
/// takes back every code it still holds — and the binding is cleared.  A
/// release with no stored binding changes nothing.
pub open spec fn release_post(pre: Layout, post: Layout, idx: int) -> bool {
    &&& post.layers@ == pre.layers@
    &&& match pre.bindings@[idx] {
        None => {
            &&& post.stack@ == pre.stack@
            &&& post.bindings@ == pre.bindings@
            &&& post.keys@ == pre.keys@
            &&& post.mods@ == pre.mods@
        },
        Some(b) => {
            &&& post.bindings@ == pre.bindings@.update(idx, None::<Held>)
            &&& match b {
                Held::HeldKey { code } => {
                    &&& post.keys@ == spec_remove_first(pre.keys@, code)
                    &&& post.mods@ == pre.mods@
                    &&& post.stack@ == pre.stack@
                },
                Held::HeldMod { bit } => {
                    &&& post.keys@ == pre.keys@
                    &&& post.mods@ == spec_remove_first(pre.mods@, bit)
                    &&& post.stack@ == pre.stack@
                },
                Held::HeldLayer { layer, pushed } => {
                    &&& post.keys@ == pre.keys@
                    &&& post.mods@ == pre.mods@
                    &&& post.stack@ == if pushed {
                        spec_remove_top(pre.stack@, layer)
                    } else {
                        pre.stack@
                    }
                },
                Held::HeldMacro { steps, cursor, live_keys, live_mods } => {
                    &&& post.keys@ == spec_flush(pre.keys@, live_keys@)
                    &&& post.mods@ == spec_flush(pre.mods@, live_mods@)
                    &&& post.stack@ == pre.stack@
                },
                Held::HeldNone => {
                    &&& post.keys@ == pre.keys@
                    &&& post.mods@ == pre.mods@
                    &&& post.stack@ == pre.stack@
                },
            }
        },
    }
}

impl Layout {
    /// The engine invariant: the keymap covers the grid, the stack keeps the
    /// base layer at the bottom, stays within the configured layer count and
    /// holds only known layer ids, every binding is well formed, and every
    /// asserted modifier bit is in range.
    pub open spec fn wf(&self) -> bool {
        &&& layers_wf(self.layers@)
        &&& self.stack@.len() >= 1
        &&& self.stack@[0] == 0usize
        &&& self.stack@.len() <= self.layers@.len()
        &&& forall|i: int| 0 <= i < self.stack@.len() ==> (#[trigger] self.stack@[i]) < self.layers@.len()
        &&& self.bindings@.len() == ROWS * COLS
        &&& forall|i: int| 0 <= i < self.bindings@.len() ==> binding_wf(#[trigger] self.bindings@[i])
        &&& forall|i: int| 0 <= i < self.mods@.len() ==> (#[trigger] self.mods@[i]) < 8
    }

    /// A fresh engine over a keymap: only the base layer active, nothing
    /// held, nothing asserted.
    pub fn new(layers: Vec<Layer>) -> (e: Layout)
        requires
            layers_wf(layers@),
        ensures
            e.wf(),
            e.layers@ == layers@,
            e.stack@ =~= seq![0usize],
            e.keys@.len() == 0,
            e.mods@.len() == 0,
            forall|i: int| 0 <= i < ROWS * COLS ==> e.bindings@[i] is None,
    {
        let mut stack: Vec<usize> = Vec::new();
        stack.push(0);
        let mut bindings: Vec<Option<Held>> = Vec::new();
        let n = ROWS * COLS;
        let mut i: usize = 0;
        while i < n
            invariant
                i <= n,
                bindings@.len() == i,
                forall|j: int| 0 <= j < i ==> bindings@[j] is None,
            decreases n - i,
        {
            bindings.push(None);
            i = i + 1;
        }
        Layout { layers, stack, bindings, keys: Vec::new(), mods: Vec::new() }
    }

    /// Resolves the action for `idx` by scanning the active stack from the
    /// top down, returning an owned copy.
    fn resolve(&self, idx: usize) -> (r: Resolved)
        requires
            self.wf(),
            idx < ROWS * COLS,
        ensures
            resolved_matches(spec_resolve(self.layers@, self.stack@, idx as int), r),
    {
        let mut k = self.stack.len();
        while k > 0
            invariant
                self.wf(),
                idx < ROWS * COLS,
                k <= self.stack@.len(),
                spec_resolve(self.layers@, self.stack@, idx as int) == spec_resolve_rec(
                    self.layers@,
                    self.stack@,
                    k as int,
                    idx as int,
                ),
            decreases k,
        {
            let l = self.stack[k - 1];
            proof {
                assert(self.stack@[k - 1] < self.layers@.len());
                assert(self.layers@[l as int].wf());
            }
            match &self.layers[l].actions[idx] {
                Action::Transparent => {
                    k = k - 1;
                },
                Action::NoOp => {
                    return Resolved::RNone;
                },
                Action::Key(c) => {
                    return Resolved::RKey(*c);
                },
                Action::Modifier(m) => {
                    return Resolved::RMod(*m);
                },
                Action::Macro(steps) => {
                    return Resolved::RMacro(copy_steps(steps));
                },
                Action::LayerHold(l2) => {
                    return Resolved::RHold(*l2);
                },
                Action::LayerToggle(l2) => {
                    return Resolved::RToggle(*l2);
                },
            }
        }
        Resolved::RNone
    }

    /// Handles a confirmed press at `(row, col)`: resolves the action
    /// against the current stack, records it as the coordinate's binding,
    /// and applies its press effect.
    pub fn press(&mut self, row: usize, col: usize)
        requires
            old(self).wf(),
            row < ROWS,
            col < COLS,
        ensures
            final(self).wf(),
            press_post(*old(self), *final(self), row * COLS + col),
    {
        let idx = row * COLS + col;
        if self.bindings[idx].is_some() {
            return ;
        }
        let r = self.resolve(idx);
        let nlayers = self.layers.len();
        let binding: Held = match r {
            Resolved::RKey(k) => {
                self.keys.push(k);
                Held::HeldKey { code: k }
            },
            Resolved::RMod(m) => {
                if m < 8 {
                    self.mods.push(m);
                    Held::HeldMod { bit: m }
                } else {
                    Held::HeldNone
                }
            },
            Resolved::RHold(l) => {
                let can = l < nlayers && self.stack.len() < nlayers;
                if can {
                    self.stack.push(l);
                }
                Held::HeldLayer { layer: l, pushed: can }
            },
            Resolved::RToggle(l) => {
                if l != 0 {
                    let (found, at) = top_index(&self.stack, l);
                    if found {
                        proof {
                            lemma_top_index(self.stack@, l);
                        }
                        self.stack.remove(at);
                        proof {
                            assert(self.stack@[0] == old(self).stack@[0]);
                            assert(forall|j: int|
                                0 <= j < self.stack@.len() ==> (#[trigger] self.stack@[j])
                                    == old(self).stack@[j] || self.stack@[j] == old(self).stack@[j
                                    + 1]);
                        }
                    } else if l < nlayers && self.stack.len() < nlayers {
                        self.stack.push(l);
                    }
                }
                Held::HeldNone
            },
            Resolved::RMacro(steps) => Held::HeldMacro {
                steps,
                cursor: 0,
                live_keys: Vec::new(),
                live_mods: Vec::new(),
            },
            Resolved::RNone => Held::HeldNone,
        };
        let slot = &mut self.bindings[idx];
        *slot = Some(binding);
    }

    /// Handles a confirmed release at `(row, col)`: undoes whatever the
    /// press-time binding recorded — never what the stack currently resolves
    /// — and clears the binding.  A release with no stored binding is a
    /// no-op.
    pub fn release(&mut self, row: usize, col: usize)
        requires
            old(self).wf(),
            row < ROWS,
            col < COLS,
        ensures
            final(self).wf(),
            release_post(*old(self), *final(self), row * COLS + col),
    {
        let idx = row * COLS + col;
        let slot = &mut self.bindings[idx];
        let b = slot.take();
        match b {
            None => {
                proof {
                    assert(self.bindings@ =~= old(self).bindings@);
                }
            },
            Some(Held::HeldKey { code }) => {
                remove_first_code(&mut self.keys, code);
            },
            Some(Held::HeldMod { bit }) => {
                remove_first_code(&mut self.mods, bit);
                proof {
                    lemma_first_index(old(self).mods@, bit);
                    assert(forall|i: int|
                        0 <= i < self.mods@.len() ==> (#[trigger] self.mods@[i]) == old(
                            self,
                        ).mods@[i] || self.mods@[i] == old(self).mods@[i + 1]);
                }
            },
            Some(Held::HeldLayer { layer, pushed }) => {
                if pushed {
                    let (found, at) = top_index(&self.stack, layer);
                    if found {
                        proof {
                            lemma_top_index(self.stack@, layer);
                        }
                        self.stack.remove(at);
                        proof {
                            assert(self.stack@[0] == old(self).stack@[0]);
                            assert(forall|j: int|
                                0 <= j < self.stack@.len() ==> (#[trigger] self.stack@[j])
                                    == old(self).stack@[j] || self.stack@[j] == old(self).stack@[j
                                    + 1]);
                        }
                    }
                }
            },
            Some(Held::HeldMacro { steps: _, cursor: _, live_keys, live_mods }) => {
                flush_codes(&mut self.keys, &live_keys);
                flush_codes(&mut self.mods, &live_mods);
                proof {
                    lemma_flush_keeps_bound(old(self).mods@, live_mods@);
                }
            },
            Some(Held::HeldNone) => {},
        }
    }

    /// Advances every in-flight macro by one step, in row-major order.  A
    /// tick with no in-flight macro changes nothing.
    pub fn tick(&mut self)
        requires
            old(self).wf(),
        ensures
            final(self).wf(),
            final(self).layers@ == old(self).layers@,
            final(self).stack@ == old(self).stack@,
            final(self).bindings@.len() == old(self).bindings@.len(),
            forall|j: int|
                0 <= j < old(self).bindings@.len() ==> tick_binding(
                    old(self).bindings@[j],
                    final(self).bindings@[j],
                ),
            final(self).keys@ == spec_tick_globals(
                old(self).bindings@,
                old(self).keys@,
                old(self).mods@,
                ROWS * COLS,
            ).0,
            final(self).mods@ == spec_tick_globals(
                old(self).bindings@,
                old(self).keys@,
                old(self).mods@,
                ROWS * COLS,
            ).1,
            (forall|j: int|
                0 <= j < old(self).bindings@.len() ==> spec_cell_step(
                    #[trigger] old(self).bindings@[j],
                ) is None) ==> final(self).keys@ == old(self).keys@ && final(self).mods@ == old(
                self,
            ).mods@ && final(self).bindings@ == old(self).bindings@,
    {
        let n = ROWS * COLS;
        let mut i: usize = 0;
        while i < n
            invariant
                n == ROWS * COLS,
                old(self).wf(),
                self.wf(),
                i <= n,
                self.layers@ == old(self).layers@,
                self.stack@ == old(self).stack@,
                self.bindings@.len() == n,
                forall|j: int| i <= j < n ==> self.bindings@[j] == old(self).bindings@[j],
                forall|j: int|
                    0 <= j < i ==> tick_binding(old(self).bindings@[j], self.bindings@[j]),
                self.keys@ == spec_tick_globals(
                    old(self).bindings@,
                    old(self).keys@,
                    old(self).mods@,
                    i as int,
                ).0,
                self.mods@ == spec_tick_globals(
                    old(self).bindings@,
                    old(self).keys@,
                    old(self).mods@,
                    i as int,
                ).1,
            decreases n - i,
        {
            let ghost pre_iter = *self;
            proof {
                assert(pre_iter.bindings@[i as int] == old(self).bindings@[i as int]);
                assert(binding_wf(pre_iter.bindings@[i as int]));
            }
            let slot = &mut self.bindings[i];
            let b = slot.take();
            match b {
                Some(Held::HeldMacro { steps, cursor, mut live_keys, mut live_mods }) => {
                    let ghost lk0 = live_keys@;
                    let ghost lm0 = live_mods@;
                    proof {
                        assert(match pre_iter.bindings@[i as int] {
                            Some(Held::HeldMacro { steps: s0, cursor: c0, live_keys: k0, live_mods: m0 }) => s0@
                                == steps@ && c0 == cursor && k0@ == lk0 && m0@ == lm0,
                            _ => false,
                        });
                    }
                    let mut cursor2 = cursor;
                    if cursor < steps.len() {
                        let st = steps[cursor];
                        if st.press && !st.modifier {
                            self.keys.push(st.value);
                            live_keys.push(st.value);
                        } else if st.press && st.modifier {
                            if st.value < 8 {
                                self.mods.push(st.value);
                                live_mods.push(st.value);
                            }
                        } else if !st.modifier {
                            if has_code(&live_keys, st.value) {
                                remove_first_code(&mut live_keys, st.value);
                                remove_first_code(&mut self.keys, st.value);
                            } else {
                                proof {
                                    lemma_first_index(lk0, st.value);
                                }
                            }
                        } else {
                            if has_code(&live_mods, st.value) {
                                remove_first_code(&mut live_mods, st.value);
                                remove_first_code(&mut self.mods, st.value);
                            } else {
                                proof {
                                    lemma_first_index(lm0, st.value);
                                }
                            }
                        }
                        cursor2 = cursor + 1;
                        proof {
                            lemma_remove_first_keeps_bound(pre_iter.mods@, st.value);
                            lemma_remove_first_keeps_bound(lm0, st.value);
                        }
                    }
                    let slot2 = &mut self.bindings[i];
                    *slot2 = Some(
                        Held::HeldMacro { steps, cursor: cursor2, live_keys, live_mods },
                    );
                    proof {
                        assert(tick_binding(
                            pre_iter.bindings@[i as int],
                            self.bindings@[i as int],
                        ));
                    }
                },
                other => {
                    let slot2 = &mut self.bindings[i];
                    *slot2 = other;
                    proof {
                        assert(self.bindings@[i as int] == pre_iter.bindings@[i as int]);
                    }
                },
            }
            proof {
                assert(forall|j: int|
                    0 <= j < n && j != i ==> self.bindings@[j] == pre_iter.bindings@[j]);
                assert(tick_binding(old(self).bindings@[i as int], self.bindings@[i as int]));
                assert(self.keys@ == spec_tick_globals(
                    old(self).bindings@,
                    old(self).keys@,
                    old(self).mods@,
                    i + 1,
                ).0);
                assert(self.mods@ == spec_tick_globals(
                    old(self).bindings@,
                    old(self).keys@,
                    old(self).mods@,
                    i + 1,
                ).1);
                assert forall|j: int| 0 <= j < n implies binding_wf(self.bindings@[j]) by {
                    if j != i {
                        assert(self.bindings@[j] == pre_iter.bindings@[j]);
                        assert(binding_wf(pre_iter.bindings@[j]));
                    }
                }
            }
            i = i + 1;
        }
        proof {
            if forall|j: int|
                0 <= j < old(self).bindings@.len() ==> spec_cell_step(
                    #[trigger] old(self).bindings@[j],
                ) is None {
                lemma_tick_globals_inactive(
                    old(self).bindings@,
                    old(self).keys@,
                    old(self).mods@,
                    ROWS * COLS,
                );
                assert forall|j: int| 0 <= j < self.bindings@.len() implies self.bindings@[j]
                    == old(self).bindings@[j] by {
                    assert(tick_binding(old(self).bindings@[j], self.bindings@[j]));
                    assert(spec_cell_step(old(self).bindings@[j]) is None);
                }
                assert(self.bindings@ =~= old(self).bindings@);
            }
        }
    }

    /// Applies one confirmed key event.
    pub fn event(&mut self, e: KeyEvent)
        requires
            old(self).wf(),
            e.row < ROWS,
            e.col < COLS,
        ensures
            final(self).wf(),
            e.kind == KeyEventKind::Press ==> press_post(
                *old(self),
                *final(self),
                e.row * COLS + e.col,
            ),
            e.kind == KeyEventKind::Release ==> release_post(
                *old(self),
                *final(self),
                e.row * COLS + e.col,
            ),
    {
        match e.kind {
            KeyEventKind::Press => self.press(e.row, e.col),
            KeyEventKind::Release => self.release(e.row, e.col),
        }
    }

    /// The asserted key codes, in assertion order.
    pub fn keycodes(&self) -> (r: Vec<u8>)
        ensures
            r@ == self.keys@,
    {
        let mut r: Vec<u8> = Vec::new();
        let mut i: usize = 0;
        while i < self.keys.len()
            invariant
                i <= self.keys@.len(),
                r@ == self.keys@.subrange(0, i as int),
            decreases self.keys@.len() - i,
        {
            r.push(self.keys[i]);
            proof {
                assert(r@ =~= self.keys@.subrange(0, i + 1));
            }
            i = i + 1;
        }
        proof {
            assert(r@ =~= self.keys@);
        }
        r
    }
}

// ---------------------------------------------------------------------------
// Laws.
// ---------------------------------------------------------------------------

/// The active layer stack's depth never exceeds the configured layer count,
/// and the base layer always sits at the bottom.
pub proof fn lemma_stack_depth_bounded(e: Layout)
    requires
        e.wf(),
    ensures
        e.stack@.len() <= e.layers@.len(),
        e.stack@[0] == 0usize,
{
}

/// Press-time binding governs release.  A key pressed while it resolves to
/// `LayerHold(l)` records that layer in its binding; after any further press
/// — which may push, pop or toggle other layers — releasing the key still
/// pops exactly one occurrence of `l`, the layer recorded at press time, not
/// whatever the stack holds on top at release time.
pub proof fn lemma_press_time_binding(
    s0: Layout,
    s1: Layout,
    s2: Layout,
    s3: Layout,
    idx: int,
    idx2: int,
    l: usize,
)
    requires
        0 <= idx < ROWS * COLS,
        0 <= idx2 < ROWS * COLS,
        idx2 != idx,
        s0.wf(),
        s0.bindings@[idx] is None,
        spec_resolve(s0.layers@, s0.stack@, idx) == Action::LayerHold(l),
        (l as int) < s0.layers@.len(),
        s0.stack@.len() < s0.layers@.len(),
        press_post(s0, s1, idx),
        press_post(s1, s2, idx2),
        release_post(s2, s3, idx),
    ensures
        s2.bindings@[idx] == Some(Held::HeldLayer { layer: l, pushed: true }),
        s3.stack@ == spec_remove_top(s2.stack@, l),
{
}

/// Popping the recorded layer never disturbs a different layer that has
/// since reached the top of the stack.
pub proof fn lemma_remove_top_keeps_top(stack: Seq<usize>, l: usize)
    requires
        spec_top_index(stack, l) >= 0,
        stack.len() >= 1,
        stack.last() != l,
    ensures
        spec_remove_top(stack, l).len() == stack.len() - 1,
        spec_remove_top(stack, l).last() == stack.last(),
{
    lemma_top_index(stack, l);
    assert(spec_top_index(stack, l) < stack.len() - 1);
}

/// Removing the first occurrence removes exactly one occurrence, and
/// nothing when the code is absent.
pub proof fn lemma_remove_first_multiset(s: Seq<u8>, v: u8)
    ensures
        s.contains(v) ==> spec_remove_first(s, v).to_multiset() == s.to_multiset().remove(v),
        !s.contains(v) ==> spec_remove_first(s, v) == s,
{
    broadcast use vstd::seq_lib::group_to_multiset_ensures;

    lemma_first_index(s, v);
    if s.contains(v) {
        let i = spec_first_index(s, v);
        assert(s.remove(i).to_multiset() =~= s.to_multiset().remove(s[i]));
    }
}

/// Every press a macro made is matched by a release: what the macro still
/// holds live is contained in the global asserted list, and flushing it on
/// release takes back exactly those occurrences — the global list loses the
/// live multiset and nothing else.
pub proof fn lemma_flush_removes_live(global: Seq<u8>, live: Seq<u8>)
    requires
        live.to_multiset().subset_of(global.to_multiset()),
    ensures
        spec_flush(global, live).to_multiset() == global.to_multiset().sub(live.to_multiset()),
    decreases live.len(),
{
    broadcast use vstd::seq_lib::group_to_multiset_ensures;
    broadcast use vstd::multiset::group_multiset_axioms;

    if live.len() == 0 {
        assert forall|x: u8|
            global.to_multiset().sub(live.to_multiset()).count(x) == global.to_multiset().count(
                x,
            ) by {
            assert(live.to_multiset().count(x) == 0);
        }
        assert(global.to_multiset() =~= global.to_multiset().sub(live.to_multiset()));
    } else {
        let v = live[0];
        assert(live.to_multiset().count(v) > 0) by {
            assert(live.contains(v));
        }
        assert(global.to_multiset().count(v) > 0);
        assert(global.contains(v));
        lemma_remove_first_multiset(global, v);
        let g1 = spec_remove_first(global, v);
        let l1 = live.drop_first();
        assert(live.remove(0) == l1);
        assert(l1.to_multiset() =~= live.to_multiset().remove(v));
        assert(l1.to_multiset().subset_of(g1.to_multiset())) by {
            assert forall|x: u8| l1.to_multiset().count(x) <= g1.to_multiset().count(x) by {
                assert(live.to_multiset().count(x) <= global.to_multiset().count(x));
            }
        }
        lemma_flush_removes_live(g1, l1);
        assert(spec_flush(global, live) == spec_flush(g1, l1));
        assert forall|x: u8|
            g1.to_multiset().sub(l1.to_multiset()).count(x) == global.to_multiset().sub(
                live.to_multiset(),
            ).count(x) by {
            assert(live.to_multiset().count(x) <= global.to_multiset().count(x));
        }
        assert(g1.to_multiset().sub(l1.to_multiset()) =~= global.to_multiset().sub(
            live.to_multiset(),
        ));
    }
}

/// The key codes one binding holds asserted: a held key's code, or an
/// in-flight macro's live key codes.
pub open spec fn contrib_keys(b: Option<Held>) -> Multiset<u8> {
    match b {
        Some(Held::HeldKey { code }) => Multiset::empty().insert(code),
        Some(Held::HeldMacro { steps, cursor, live_keys, live_mods }) => live_keys@.to_multiset(),
        _ => Multiset::empty(),
    }
}

/// The modifier bits one binding holds asserted.
pub open spec fn contrib_mods(b: Option<Held>) -> Multiset<u8> {
    match b {
        Some(Held::HeldMod { bit }) => Multiset::empty().insert(bit),
        Some(Held::HeldMacro { steps, cursor, live_keys, live_mods }) => live_mods@.to_multiset(),
        _ => Multiset::empty(),
    }
}

/// The key codes the bindings below `n` hold asserted, all together.
pub open spec fn contribs_keys(bindings: Seq<Option<Held>>, n: int) -> Multiset<u8>
    decreases n,
{
    if n <= 0 {
        Multiset::empty()
    } else {
        contribs_keys(bindings, n - 1).add(contrib_keys(bindings[n - 1]))
    }
}

/// The modifier bits the bindings below `n` hold asserted, all together.
pub open spec fn contribs_mods(bindings: Seq<Option<Held>>, n: int) -> Multiset<u8>
    decreases n,
{
    if n <= 0 {
        Multiset::empty()
    } else {
        contribs_mods(bindings, n - 1).add(contrib_mods(bindings[n - 1]))
    }
}

/// The accounting invariant: everything the bindings hold asserted is
/// covered by the global asserted lists, occurrence for occurrence.
pub open spec fn accounted(e: Layout) -> bool {
    &&& contribs_keys(e.bindings@, e.bindings@.len() as int).subset_of(e.keys@.to_multiset())
    &&& contribs_mods(e.bindings@, e.bindings@.len() as int).subset_of(e.mods@.to_multiset())
}

/// One binding's contribution is covered by the total.
pub proof fn lemma_contrib_le(bindings: Seq<Option<Held>>, i: int, n: int, v: u8)
    requires
        0 <= i < n,
    ensures
        contrib_keys(bindings[i]).count(v) <= contribs_keys(bindings, n).count(v),
        contrib_mods(bindings[i]).count(v) <= contribs_mods(bindings, n).count(v),
    decreases n,
{
    broadcast use vstd::multiset::group_multiset_axioms;

    if i < n - 1 {
        lemma_contrib_le(bindings, i, n - 1, v);
    }
}

/// Changing one binding changes the total by swapping that binding's
/// contribution, count for count.
pub proof fn lemma_contribs_update(
    bindings: Seq<Option<Held>>,
    i: int,
    x: Option<Held>,
    n: int,
    v: u8,
)
    requires
        0 <= i < n,
        n <= bindings.len(),
    ensures
        contribs_keys(bindings.update(i, x), n).count(v) + contrib_keys(bindings[i]).count(v)
            == contribs_keys(bindings, n).count(v) + contrib_keys(x).count(v),
        contribs_mods(bindings.update(i, x), n).count(v) + contrib_mods(bindings[i]).count(v)
            == contribs_mods(bindings, n).count(v) + contrib_mods(x).count(v),
    decreases n,
{
    broadcast use vstd::multiset::group_multiset_axioms;

    if i < n - 1 {
        lemma_contribs_update(bindings, i, x, n - 1, v);
        assert(bindings.update(i, x)[n - 1] == bindings[n - 1]);
    } else {
        assert(bindings.update(i, x)[i] == x);
        assert(forall|j: int| 0 <= j < i ==> bindings.update(i, x)[j] == bindings[j]);
        lemma_contribs_same(bindings.update(i, x), bindings, i, v);
    }
}

/// Totals agree below `n` when the bindings agree below `n`.
pub proof fn lemma_contribs_same(a: Seq<Option<Held>>, b: Seq<Option<Held>>, n: int, v: u8)
    requires
        forall|j: int| 0 <= j < n ==> a[j] == b[j],
    ensures
        contribs_keys(a, n).count(v) == contribs_keys(b, n).count(v),
        contribs_mods(a, n).count(v) == contribs_mods(b, n).count(v),
    decreases n,
{
    broadcast use vstd::multiset::group_multiset_axioms;

    if n > 0 {
        lemma_contribs_same(a, b, n - 1, v);
    }
}

/// Idle bindings hold nothing.
pub proof fn lemma_contribs_idle(bindings: Seq<Option<Held>>, n: int, v: u8)
    requires
        forall|j: int| 0 <= j < n ==> bindings[j] is None,
    ensures
        contribs_keys(bindings, n).count(v) == 0,
        contribs_mods(bindings, n).count(v) == 0,
    decreases n,
{
    broadcast use vstd::multiset::group_multiset_axioms;

    if n > 0 {
        lemma_contribs_idle(bindings, n - 1, v);
    }
}

/// A fresh engine is accounted: nothing is held and nothing is asserted.
pub proof fn lemma_accounted_initial(e: Layout)
    requires
        forall|j: int| 0 <= j < e.bindings@.len() ==> e.bindings@[j] is None,
    ensures
        accounted(e),
{
    broadcast use vstd::multiset::group_multiset_axioms;

    assert forall|v: u8|
        contribs_keys(e.bindings@, e.bindings@.len() as int).count(v) == 0 && contribs_mods(
            e.bindings@,
            e.bindings@.len() as int,
        ).count(v) == 0 by {
        lemma_contribs_idle(e.bindings@, e.bindings@.len() as int, v);
    }
}

/// The accounting invariant survives every press: a press that asserts a
/// code both records it in the binding and appends it to the global list.
pub proof fn lemma_press_preserves_accounting(pre: Layout, post: Layout, idx: int)
    requires
        pre.wf(),
        accounted(pre),
        0 <= idx < pre.bindings@.len(),
        press_post(pre, post, idx),
    ensures
        accounted(post),
{
    broadcast use vstd::seq_lib::group_to_multiset_ensures;
    broadcast use vstd::multiset::group_multiset_axioms;

    let n = pre.bindings@.len() as int;
    if pre.bindings@[idx] is Some {
    } else {
        let newb = post.bindings@[idx];
        assert(post.bindings@ =~= pre.bindings@.update(idx, newb));
        assert forall|v: u8|
            contribs_keys(post.bindings@, n).count(v) <= post.keys@.to_multiset().count(v) by {
            lemma_contribs_update(pre.bindings@, idx, newb, n, v);
            assert(contrib_keys(pre.bindings@[idx]).count(v) == 0);
            assert(contribs_keys(pre.bindings@, n).count(v) <= pre.keys@.to_multiset().count(v));
            match newb {
                Some(Held::HeldMacro { steps, cursor, live_keys, live_mods }) => {
                    assert(!live_keys@.contains(v));
                    assert(contrib_keys(newb).count(v) == 0);
                },
                _ => {},
            }
        }
        assert forall|v: u8|
            contribs_mods(post.bindings@, n).count(v) <= post.mods@.to_multiset().count(v) by {
            lemma_contribs_update(pre.bindings@, idx, newb, n, v);
            assert(contrib_mods(pre.bindings@[idx]).count(v) == 0);
            assert(contribs_mods(pre.bindings@, n).count(v) <= pre.mods@.to_multiset().count(v));
            match newb {
                Some(Held::HeldMacro { steps, cursor, live_keys, live_mods }) => {
                    assert(!live_mods@.contains(v));
                    assert(contrib_mods(newb).count(v) == 0);
                },
                _ => {},
            }
        }
    }
}

/// The accounting invariant survives every release: what the binding held
/// is taken out of both the binding table and the global lists together.
pub proof fn lemma_release_preserves_accounting(pre: Layout, post: Layout, idx: int)
    requires
        pre.wf(),
        accounted(pre),
        0 <= idx < pre.bindings@.len(),
        release_post(pre, post, idx),
    ensures
        accounted(post),
{
    broadcast use vstd::seq_lib::group_to_multiset_ensures;
    broadcast use vstd::multiset::group_multiset_axioms;

    let n = pre.bindings@.len() as int;
    match pre.bindings@[idx] {
        None => {},
        Some(b) => {
            assert(post.bindings@ == pre.bindings@.update(idx, None::<Held>));
            match b {
                Held::HeldKey { code } => {
                    assert(contrib_keys(pre.bindings@[idx]).count(code) == 1);
                    lemma_contrib_le(pre.bindings@, idx, n, code);
                    assert(pre.keys@.to_multiset().count(code) > 0);
                    assert(pre.keys@.contains(code));
                    lemma_remove_first_multiset(pre.keys@, code);
                    assert forall|v: u8|
                        contribs_keys(post.bindings@, n).count(v) <= post.keys@.to_multiset().count(
                            v,
                        ) by {
                        lemma_contribs_update(pre.bindings@, idx, None::<Held>, n, v);
                        assert(contribs_keys(pre.bindings@, n).count(v)
                            <= pre.keys@.to_multiset().count(v));
                        lemma_contrib_le(pre.bindings@, idx, n, v);
                    }
                    assert forall|v: u8|
                        contribs_mods(post.bindings@, n).count(v) <= post.mods@.to_multiset().count(
                            v,
                        ) by {
                        lemma_contribs_update(pre.bindings@, idx, None::<Held>, n, v);
                        assert(contribs_mods(pre.bindings@, n).count(v)
                            <= pre.mods@.to_multiset().count(v));
                    }
                },
                Held::HeldMod { bit } => {
                    assert(contrib_mods(pre.bindings@[idx]).count(bit) == 1);
                    lemma_contrib_le(pre.bindings@, idx, n, bit);
                    assert(pre.mods@.to_multiset().count(bit) > 0);
                    assert(pre.mods@.contains(bit));
                    lemma_remove_first_multiset(pre.mods@, bit);
                    assert forall|v: u8|
                        contribs_keys(post.bindings@, n).count(v) <= post.keys@.to_multiset().count(
                            v,
                        ) by {
                        lemma_contribs_update(pre.bindings@, idx, None::<Held>, n, v);
                        assert(contribs_keys(pre.bindings@, n).count(v)
                            <= pre.keys@.to_multiset().count(v));
                    }
                    assert forall|v: u8|
                        contribs_mods(post.bindings@, n).count(v) <= post.mods@.to_multiset().count(
                            v,
                        ) by {
                        lemma_contribs_update(pre.bindings@, idx, None::<Held>, n, v);
                        assert(contribs_mods(pre.bindings@, n).count(v)
                            <= pre.mods@.to_multiset().count(v));
                        lemma_contrib_le(pre.bindings@, idx, n, v);
                    }
                },
                Held::HeldMacro { steps, cursor, live_keys, live_mods } => {
                    assert forall|v: u8|
                        live_keys@.to_multiset().count(v) <= pre.keys@.to_multiset().count(v) by {
                        lemma_contrib_le(pre.bindings@, idx, n, v);
                    }
                    assert forall|v: u8|
                        live_mods@.to_multiset().count(v) <= pre.mods@.to_multiset().count(v) by {
                        lemma_contrib_le(pre.bindings@, idx, n, v);
                    }
                    assert(live_keys@.to_multiset().subset_of(pre.keys@.to_multiset()));
                    assert(live_mods@.to_multiset().subset_of(pre.mods@.to_multiset()));
                    lemma_flush_removes_live(pre.keys@, live_keys@);
                    lemma_flush_removes_live(pre.mods@, live_mods@);
                    assert forall|v: u8|
                        contribs_keys(post.bindings@, n).count(v) <= post.keys@.to_multiset().count(
                            v,
                        ) by {
                        lemma_contribs_update(pre.bindings@, idx, None::<Held>, n, v);
                        assert(contribs_keys(pre.bindings@, n).count(v)
                            <= pre.keys@.to_multiset().count(v));
                        lemma_contrib_le(pre.bindings@, idx, n, v);
                    }
                    assert forall|v: u8|
                        contribs_mods(post.bindings@, n).count(v) <= post.mods@.to_multiset().count(
                            v,
                        ) by {
                        lemma_contribs_update(pre.bindings@, idx, None::<Held>, n, v);
                        assert(contribs_mods(pre.bindings@, n).count(v)
                            <= pre.mods@.to_multiset().count(v));
                        lemma_contrib_le(pre.bindings@, idx, n, v);
                    }
                },
                _ => {
                    assert forall|v: u8|
                        contribs_keys(post.bindings@, n).count(v) <= post.keys@.to_multiset().count(
                            v,
                        ) by {
                        lemma_contribs_update(pre.bindings@, idx, None::<Held>, n, v);
                        assert(contribs_keys(pre.bindings@, n).count(v)
                            <= pre.keys@.to_multiset().count(v));
                    }
                    assert forall|v: u8|
                        contribs_mods(post.bindings@, n).count(v) <= post.mods@.to_multiset().count(
                            v,
                        ) by {
                        lemma_contribs_update(pre.bindings@, idx, None::<Held>, n, v);
                        assert(contribs_mods(pre.bindings@, n).count(v)
                            <= pre.mods@.to_multiset().count(v));
                    }
                },
            }
        },
    }
}

/// The macro-advance transition of one engine tick.
pub open spec fn tick_rel(pre: Layout, post: Layout) -> bool {
    &&& post.layers@ == pre.layers@
    &&& post.stack@ == pre.stack@
    &&& post.bindings@.len() == pre.bindings@.len()
    &&& forall|j: int|
        0 <= j < pre.bindings@.len() ==> tick_binding(pre.bindings@[j], post.bindings@[j])
    &&& post.keys@ == spec_tick_globals(pre.bindings@, pre.keys@, pre.mods@, ROWS * COLS).0
    &&& post.mods@ == spec_tick_globals(pre.bindings@, pre.keys@, pre.mods@, ROWS * COLS).1
}

/// The bindings after a tick has processed the cells below `k`: the first
/// `k` from the post-state, the rest still from the pre-state.
pub open spec fn mixed_bindings(
    pre_b: Seq<Option<Held>>,
    post_b: Seq<Option<Held>>,
    k: int,
) -> Seq<Option<Held>> {
    post_b.subrange(0, k) + pre_b.subrange(k, pre_b.len() as int)
}

/// The accounting invariant holds at every intermediate point of a tick:
/// after the cells below `k` have run their macro steps, what the (partly
/// advanced) bindings hold is still covered by the global lists so far.
pub proof fn lemma_tick_accounting_upto(pre: Layout, post: Layout, k: int)
    requires
        pre.wf(),
        accounted(pre),
        tick_rel(pre, post),
        0 <= k <= pre.bindings@.len(),
    ensures
        forall|v: u8|
            contribs_keys(mixed_bindings(pre.bindings@, post.bindings@, k), pre.bindings@.len() as int).count(v)
                <= spec_tick_globals(pre.bindings@, pre.keys@, pre.mods@, k).0.to_multiset().count(v),
        forall|v: u8|
            contribs_mods(mixed_bindings(pre.bindings@, post.bindings@, k), pre.bindings@.len() as int).count(v)
                <= spec_tick_globals(pre.bindings@, pre.keys@, pre.mods@, k).1.to_multiset().count(v),
    decreases k,
{
    broadcast use vstd::seq_lib::group_to_multiset_ensures;
    broadcast use vstd::multiset::group_multiset_axioms;

    let n = pre.bindings@.len() as int;
    if k == 0 {
        assert(mixed_bindings(pre.bindings@, post.bindings@, 0) =~= pre.bindings@);
    } else {
        lemma_tick_accounting_upto(pre, post, k - 1);
        let m0 = mixed_bindings(pre.bindings@, post.bindings@, k - 1);
        let m1 = mixed_bindings(pre.bindings@, post.bindings@, k);
        let g0 = spec_tick_globals(pre.bindings@, pre.keys@, pre.mods@, k - 1);
        let g1 = spec_tick_globals(pre.bindings@, pre.keys@, pre.mods@, k);
        let b = pre.bindings@[k - 1];
        let b2 = post.bindings@[k - 1];
        assert(tick_binding(b, b2));
        assert(m0[k - 1] == b);
        assert(m1 =~= m0.update(k - 1, b2));
        assert(g1 == spec_step_globals(g0.0, g0.1, b));
        assert forall|v: u8| contrib_keys(m0[k - 1]).count(v) <= contribs_keys(m0, n).count(v)
            && contrib_mods(m0[k - 1]).count(v) <= contribs_mods(m0, n).count(v) by {
            lemma_contrib_le(m0, k - 1, n, v);
        }
        match b {
            Some(Held::HeldMacro { steps, cursor, live_keys, live_mods }) => {
                if cursor < steps@.len() {
                    let st = steps@[cursor as int];
                    match b2 {
                        Some(
                            Held::HeldMacro {
                                steps: s2,
                                cursor: c2,
                                live_keys: lk2,
                                live_mods: lm2,
                            },
                        ) => {
                            if st.press && !st.modifier {
                                assert(lk2@ == live_keys@.push(st.value));
                                assert(lk2@.to_multiset() =~= live_keys@.to_multiset().insert(
                                    st.value,
                                ));
                                assert(g1.0 == g0.0.push(st.value));
                                assert(g1.0.to_multiset() =~= g0.0.to_multiset().insert(st.value));
                                assert(lm2@ == live_mods@ && g1.1 == g0.1);
                            } else if st.press && st.modifier {
                                assert(lk2@ == live_keys@ && g1.0 == g0.0);
                                if st.value < 8 {
                                    assert(lm2@ == live_mods@.push(st.value));
                                    assert(lm2@.to_multiset() =~= live_mods@.to_multiset().insert(
                                        st.value,
                                    ));
                                    assert(g1.1 == g0.1.push(st.value));
                                    assert(g1.1.to_multiset() =~= g0.1.to_multiset().insert(
                                        st.value,
                                    ));
                                } else {
                                    assert(lm2@ == live_mods@ && g1.1 == g0.1);
                                }
                            } else if !st.modifier {
                                assert(lm2@ == live_mods@ && g1.1 == g0.1);
                                lemma_first_index(live_keys@, st.value);
                                if live_keys@.contains(st.value) {
                                    assert(contrib_keys(b).count(st.value) > 0);
                                    assert(g0.0.to_multiset().count(st.value) > 0);
                                    assert(g0.0.contains(st.value));
                                    lemma_remove_first_multiset(g0.0, st.value);
                                    lemma_remove_first_multiset(live_keys@, st.value);
                                    assert(lk2@.to_multiset() == live_keys@.to_multiset().remove(
                                        st.value,
                                    ));
                                    assert(g1.0.to_multiset() == g0.0.to_multiset().remove(
                                        st.value,
                                    ));
                                } else {
                                    assert(lk2@ == live_keys@ && g1.0 == g0.0);
                                }
                            } else {
                                assert(lk2@ == live_keys@ && g1.0 == g0.0);
                                lemma_first_index(live_mods@, st.value);
                                if live_mods@.contains(st.value) {
                                    assert(contrib_mods(b).count(st.value) > 0);
                                    assert(g0.1.to_multiset().count(st.value) > 0);
                                    assert(g0.1.contains(st.value));
                                    lemma_remove_first_multiset(g0.1, st.value);
                                    lemma_remove_first_multiset(live_mods@, st.value);
                                    assert(lm2@.to_multiset() == live_mods@.to_multiset().remove(
                                        st.value,
                                    ));
                                    assert(g1.1.to_multiset() == g0.1.to_multiset().remove(
                                        st.value,
                                    ));
                                } else {
                                    assert(lm2@ == live_mods@ && g1.1 == g0.1);
                                }
                            }
                        },
                        _ => {
                            assert(false);
                        },
                    }
                } else {
                    assert(b2 == b && g1 == g0);
                }
            },
            _ => {
                assert(b2 == b && g1 == g0);
            },
        }
        assert forall|v: u8| contribs_keys(m1, n).count(v) <= g1.0.to_multiset().count(v) by {
            lemma_contribs_update(m0, k - 1, b2, n, v);
            lemma_contrib_le(m0, k - 1, n, v);
            assert(contribs_keys(m0, n).count(v) <= g0.0.to_multiset().count(v));
        }
        assert forall|v: u8| contribs_mods(m1, n).count(v) <= g1.1.to_multiset().count(v) by {
            lemma_contribs_update(m0, k - 1, b2, n, v);
            lemma_contrib_le(m0, k - 1, n, v);
            assert(contribs_mods(m0, n).count(v) <= g0.1.to_multiset().count(v));
        }
    }
}

/// The accounting invariant survives a whole tick: macro steps append to
/// the binding's record and the global list together, and take back only
/// what the record covers.
pub proof fn lemma_tick_preserves_accounting(pre: Layout, post: Layout)
    requires
        pre.wf(),
        accounted(pre),
        tick_rel(pre, post),
        pre.bindings@.len() == ROWS * COLS,
    ensures
        accounted(post),
{
    let n = pre.bindings@.len() as int;
    lemma_tick_accounting_upto(pre, post, n);
    assert(mixed_bindings(pre.bindings@, post.bindings@, n) =~= post.bindings@);
}

/// A macro expands in its configured order: while it is in flight, each
/// tick runs exactly the step under its cursor and advances the cursor by
/// one, and its step list never changes.
pub proof fn lemma_macro_steps_in_order(pre_b: Option<Held>, post_b: Option<Held>)
    requires
        tick_binding(pre_b, post_b),
        spec_cell_step(pre_b) is Some,
    ensures
        match (pre_b, post_b) {
            (
                Some(Held::HeldMacro { steps, cursor, live_keys, live_mods }),
                Some(Held::HeldMacro { steps: s2, cursor: c2, live_keys: k2, live_mods: m2 }),
            ) => s2@ == steps@ && c2 == cursor + 1 && spec_cell_step(pre_b) == Some(
                steps@[cursor as int],
            ),
            _ => false,
        },
{
}

} // verus!
