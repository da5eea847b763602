//! Scheduler coordination: one fixed-period tick runs the whole pipeline —
//! raw samples through the coordinate mapper, the debouncer, the layout
//! engine and the report assembler — and decides whether the resulting
//! report must be handed to the USB transmission path.  Timer re-arming,
//! the watchdog feed, the settle-delay busy wait and the actual USB write
//! happen outside the library, around this function.

use vstd::prelude::*;
use crate::coord::{COLS, ROWS, Topology, lemma_map_unmap, spec_unmap};
use crate::debounce::{Debouncer, KeyEvent, KeyEventKind, cell_next};
use crate::engine::{Layout, press_post, release_post, spec_cell_step, tick_rel};
use crate::grid::{PhysGrid, scan_to_grid};
use crate::keymap::{Layer, layers_wf};
use crate::report::{HidReport, assemble, spec_mod_byte, spec_report_keys};

verus! {

/// The raw reading that lands on logical cell `i` (row-major): the sampled
/// physical cell that maps there.
pub open spec fn spec_raw_cell(samples: PhysGrid, t: Topology, i: int) -> bool {
    samples.at(
        spec_unmap(t, i / (COLS as int), i % (COLS as int)).0,
        spec_unmap(t, i / (COLS as int), i % (COLS as int)).1,
    )
}

/// The whole raw logical grid of one scan, as a row-major sequence.
pub open spec fn spec_raws(samples: PhysGrid, t: Topology) -> Seq<bool> {
    Seq::new((ROWS * COLS) as nat, |i: int| spec_raw_cell(samples, t, i))
}

/// One engine transition for one event.
pub open spec fn event_rel(pre: Layout, post: Layout, e: KeyEvent) -> bool {
    match e.kind {
        KeyEventKind::Press => press_post(pre, post, e.row * COLS + e.col),
        KeyEventKind::Release => release_post(pre, post, e.row * COLS + e.col),
    }
}

/// The engine stepped through `states` by applying the events of `evs` in
/// order: `states` holds every intermediate engine state, one more than
/// there are events.
pub open spec fn events_chain(states: Seq<Layout>, evs: Seq<KeyEvent>) -> bool {
    &&& states.len() == evs.len() + 1
    &&& forall|i: int| 0 <= i < evs.len() ==> event_rel(states[i], states[i + 1], #[trigger] evs[i])
}

/// Identical held switches and nothing in flight: every raw sample agrees
/// with the settled debounced grid, and no macro has steps left to run.
pub open spec fn steady_state(k: Keyboard, samples: PhysGrid) -> bool {
    &&& forall|i: int|
        0 <= i < ROWS * COLS ==> spec_raws(samples, k.topology)[i] == k.debouncer.deb_at(i)
            && k.debouncer.settled_at(i)
    &&& forall|j: int|
        0 <= j < k.engine.bindings@.len() ==> spec_cell_step(
            #[trigger] k.engine.bindings@[j],
        ) is None
}

/// The last report handed out matches what the engine currently asserts.
pub open spec fn report_in_sync(k: Keyboard) -> bool {
    &&& k.last_report.keys@ == spec_report_keys(k.engine.keys@)
    &&& k.last_report.modifiers == spec_mod_byte(k.engine.mods@)
}

/// Nothing observable moved across a tick: debounce state, engine state and
/// the last report all kept their contents.
pub open spec fn pipeline_unchanged(pre: Keyboard, post: Keyboard) -> bool {
    &&& post.debouncer.debounced@ == pre.debouncer.debounced@
    &&& post.debouncer.counters@ == pre.debouncer.counters@
    &&& post.engine.keys@ == pre.engine.keys@
    &&& post.engine.mods@ == pre.engine.mods@
    &&& post.engine.bindings@ == pre.engine.bindings@
    &&& post.engine.stack@ == pre.engine.stack@
    &&& post.last_report.keys@ == pre.last_report.keys@
    &&& post.last_report.modifiers == pre.last_report.modifiers
}

/// The whole keyboard: pipeline state plus the last report handed to the
/// transmission path.
pub struct Keyboard {
    /// The board's wiring topology; the folded stacked matrix, optionally
    /// mounted rotated.
    pub topology: Topology,
    /// Debounce state.
    pub debouncer: Debouncer,
    /// The layered key-action state machine.
    pub engine: Layout,
    /// The report most recently handed to the transmission path.
    pub last_report: HidReport,
}

impl Keyboard {
    /// The keyboard invariant.
    pub open spec fn wf(&self) -> bool {
        &&& self.topology.folded
        &&& self.debouncer.wf()
        &&& self.engine.wf()
        &&& self.last_report.wf()
    }

    /// A fresh keyboard over a keymap: everything released and idle.
    pub fn new(layers: Vec<Layer>, threshold: u8, topology: Topology) -> (k: Keyboard)
        requires
            layers_wf(layers@),
            threshold >= 1,
            topology.folded,
        ensures
            k.wf(),
            k.topology == topology,
            k.debouncer.threshold == threshold,
            k.engine.layers@ == layers@,
            k.last_report.keys@.len() == 0,
            k.last_report.modifiers == 0,
            forall|i: int| 0 <= i < ROWS * COLS ==> !k.debouncer.deb_at(i),
            forall|i: int| 0 <= i < ROWS * COLS ==> k.debouncer.settled_at(i),
            forall|i: int| 0 <= i < ROWS * COLS ==> k.engine.bindings@[i] is None,
            k.engine.keys@.len() == 0,
            k.engine.mods@.len() == 0,
    {
        Keyboard {
            topology,
            debouncer: Debouncer::new(threshold),
            engine: Layout::new(layers),
            last_report: HidReport::new(),
        }
    }

    /// One scheduler tick: debounce the mapped raw samples, feed the
    /// confirmed events to the layout engine in order, advance in-flight
    /// macros, assemble the report, and decide on transmission.
    ///
    /// The report is handed out (`Some`) exactly when the host has
    /// configured the device and the assembled report differs from the last
    /// one handed out; `last_report` then tracks what was assembled.  While
    /// the device is not configured the pipeline still runs, but nothing is
    /// handed out and `last_report` is untouched.  Repeating a tick in a
    /// steady state — identical held switches, everything settled, no macro
    /// in flight, report already in sync — changes nothing and emits
    /// nothing.
    pub fn tick(&mut self, samples: &PhysGrid, usb_configured: bool) -> (out: Option<HidReport>)
        requires
            old(self).wf(),
            samples.wf(),
        ensures
            final(self).wf(),
            final(self).topology == old(self).topology,
            final(self).debouncer.threshold == old(self).debouncer.threshold,
            final(self).engine.layers@ == old(self).engine.layers@,
            forall|i: int|
                0 <= i < ROWS * COLS ==> final(self).debouncer.deb_at(i) == cell_next(
                    old(self).debouncer.deb_at(i),
                    old(self).debouncer.cnt_at(i),
                    spec_raws(*samples, old(self).topology)[i],
                    old(self).debouncer.threshold as int,
                ).0,
            forall|i: int|
                0 <= i < ROWS * COLS ==> final(self).debouncer.cnt_at(i) == cell_next(
                    old(self).debouncer.deb_at(i),
                    old(self).debouncer.cnt_at(i),
                    spec_raws(*samples, old(self).topology)[i],
                    old(self).debouncer.threshold as int,
                ).1,
            exists|states: Seq<Layout>|
                events_chain(
                    states,
                    old(self).debouncer.spec_events(spec_raws(*samples, old(self).topology)),
                ) && states[0] == old(self).engine && tick_rel(states.last(), final(self).engine),
            ({
                let rk = spec_report_keys(final(self).engine.keys@);
                let rm = spec_mod_byte(final(self).engine.mods@);
                if usb_configured {
                    &&& final(self).last_report.keys@ == rk
                    &&& final(self).last_report.modifiers == rm
                    &&& (out is Some <==> !(rk == old(self).last_report.keys@ && rm == old(
                        self,
                    ).last_report.modifiers))
                    &&& match out {
                        Some(r) => r.keys@ == rk && r.modifiers == rm && r.wf(),
                        None => true,
                    }
                } else {
                    &&& out is None
                    &&& final(self).last_report == old(self).last_report
                }
            }),
            steady_state(*old(self), *samples) && report_in_sync(*old(self)) ==> out is None
                && pipeline_unchanged(*old(self), *final(self)),
    {
        let t = self.topology;
        let g = scan_to_grid(samples, &t);
        proof {
            assert forall|i: int| 0 <= i < ROWS * COLS implies g.cells@[i] == spec_raws(
                *samples,
                t,
            )[i] by {
                let lr = i / (COLS as int);
                let lc = i % (COLS as int);
                lemma_map_unmap(t, lr, lc);
                assert(g.at(lr, lc) == samples.at(
                    spec_unmap(t, lr, lc).0,
                    spec_unmap(t, lr, lc).1,
                ));
            }
            assert(g.cells@ =~= spec_raws(*samples, t));
        }
        let evs = self.debouncer.events(&g);
        let ghost engine0 = self.engine;
        let ghost deb1 = self.debouncer;
        let ghost last0 = self.last_report;
        let ghost mut states: Seq<Layout> = seq![self.engine];
        let mut i: usize = 0;
        while i < evs.len()
            invariant
                self.engine.wf(),
                forall|k: int| 0 <= k < evs@.len() ==> evs@[k].row < ROWS && evs@[k].col < COLS,
                i <= evs@.len(),
                states.len() == i + 1,
                states[0] == engine0,
                states.last() == self.engine,
                forall|k: int|
                    0 <= k < i ==> event_rel(states[k], states[k + 1], #[trigger] evs@[k]),
                self.engine.layers@ == engine0.layers@,
                self.debouncer == deb1,
                self.topology == t,
                self.last_report == last0,
            decreases evs@.len() - i,
        {
            let e = evs[i];
            let ghost pre_e = self.engine;
            self.engine.event(e);
            proof {
                assert(event_rel(pre_e, self.engine, e));
                states = states.push(self.engine);
            }
            i = i + 1;
        }
        let ghost mid = self.engine;
        self.engine.tick();
        proof {
            assert(events_chain(states, evs@) && states[0] == engine0 && tick_rel(
                mid,
                self.engine,
            ));
            assert(states.last() == mid);
        }
        let rep = assemble(&self.engine.keys, &self.engine.mods);
        let out: Option<HidReport>;
        if usb_configured {
            let send = !(self.last_report == rep);
            self.last_report = copy_report(&rep);
            if send {
                out = Some(rep);
            } else {
                out = None;
            }
        } else {
            out = None;
        }
        proof {
            if steady_state(*old(self), *samples) && report_in_sync(*old(self)) {
                assert(evs@.len() == 0);
                assert(mid == engine0);
            }
        }
        out
    }
}

/// A fresh report with the same contents.
fn copy_report(r: &HidReport) -> (r2: HidReport)
    ensures
        r2.modifiers == r.modifiers,
        r2.keys@ == r.keys@,
{
    let mut keys: Vec<u8> = Vec::new();
    let mut i: usize = 0;
    while i < r.keys.len()
        invariant
            i <= r.keys@.len(),
            keys@ == r.keys@.subrange(0, i as int),
        decreases r.keys@.len() - i,
    {
        keys.push(r.keys[i]);
        proof {
            assert(keys@ =~= r.keys@.subrange(0, i + 1));
        }
        i = i + 1;
    }
    proof {
        assert(keys@ =~= r.keys@);
    }
    HidReport { modifiers: r.modifiers, keys }
}

/// The high-priority USB interrupt handler's decision: the device is polled
/// first, and the keyboard class is pumped exactly when that poll reported
/// work to do.  The polls themselves are non-blocking calls made outside
/// the library, under the shared-handle lock.
pub fn usb_rx(device_poll_result: bool) -> (pump_class: bool)
    ensures
        pump_class == device_poll_result,
{
    device_poll_result
}

} // verus!
