//! Debouncer: filters transient bounce with a per-cell hysteresis counter and
//! emits only confirmed press/release transitions, in row-major order.
//!
//! Each cell keeps a counter in `[0, threshold]`.  While raw readings agree
//! with the debounced state the counter rests at its settled value (`0` when
//! released, `threshold` when pressed).  A reading that disagrees moves the
//! counter one step toward the opposite bound; a reading that agrees resets
//! it.  The debounced state flips exactly when the counter saturates: at
//! `threshold` it becomes pressed, at `0` it becomes released.  A flip
//! therefore happens only after `threshold` consecutive identical readings in
//! the new state.

use vstd::prelude::*;
use crate::coord::{COLS, ROWS};
use crate::grid::Grid;

verus! {

/// A confirmed transition of one logical key.
#[derive(Clone, Copy, PartialEq, Eq, Structural, Debug)]
pub enum KeyEventKind {
    Press,
    Release,
}

/// A confirmed press or release at a logical coordinate.
#[derive(Clone, Copy, PartialEq, Eq, Structural, Debug)]
pub struct KeyEvent {
    pub row: usize,
    pub col: usize,
    pub kind: KeyEventKind,
}

/// One cell's debounce state is well formed: the counter sits strictly below
/// `thr` while released and strictly above `0` while pressed.
pub open spec fn cell_wf(deb: bool, cnt: int, thr: int) -> bool {
    &&& thr >= 1
    &&& (deb ==> 1 <= cnt <= thr)
    &&& (!deb ==> 0 <= cnt < thr)
}

/// One debounce step of a single cell: next (debounced, counter).
pub open spec fn cell_next(deb: bool, cnt: int, raw: bool, thr: int) -> (bool, int) {
    if raw == deb {
        (deb, if deb { thr } else { 0 })
    } else if deb {
        if cnt <= 1 {
            (false, 0)
        } else {
            (true, cnt - 1)
        }
    } else {
        if cnt + 1 >= thr {
            (true, thr)
        } else {
            (false, cnt + 1)
        }
    }
}

/// How far a cell has moved from its settled value toward a flip: the number
/// of consecutive disagreeing readings it has absorbed.
pub open spec fn cell_progress(deb: bool, cnt: int, thr: int) -> int {
    if deb {
        thr - cnt
    } else {
        cnt
    }
}

/// A cell's state after a whole sequence of raw readings.
pub open spec fn run_cell(deb: bool, cnt: int, raws: Seq<bool>, thr: int) -> (bool, int)
    decreases raws.len(),
{
    if raws.len() == 0 {
        (deb, cnt)
    } else {
        let prev = run_cell(deb, cnt, raws.drop_last(), thr);
        cell_next(prev.0, prev.1, raws.last(), thr)
    }
}

/// After any run from a settled state: the cell's progress never exceeds the
/// run's length, and the trailing `progress` readings all disagree with the
/// current debounced state (they are the consecutive readings pushing toward
/// a flip).
pub proof fn lemma_trailing_run(deb0: bool, cnt0: int, raws: Seq<bool>, thr: int)
    requires
        cell_wf(deb0, cnt0, thr),
        cell_progress(deb0, cnt0, thr) == 0,
    ensures
        cell_wf(run_cell(deb0, cnt0, raws, thr).0, run_cell(deb0, cnt0, raws, thr).1, thr),
        cell_progress(
            run_cell(deb0, cnt0, raws, thr).0,
            run_cell(deb0, cnt0, raws, thr).1,
            thr,
        ) <= raws.len(),
        forall|j: int|
            raws.len() - cell_progress(
                run_cell(deb0, cnt0, raws, thr).0,
                run_cell(deb0, cnt0, raws, thr).1,
                thr,
            ) <= j < raws.len() ==> raws[j] == !run_cell(deb0, cnt0, raws, thr).0,
    decreases raws.len(),
{
    if raws.len() > 0 {
        let sub = raws.drop_last();
        lemma_trailing_run(deb0, cnt0, sub, thr);
        let prev = run_cell(deb0, cnt0, sub, thr);
        let s = run_cell(deb0, cnt0, raws, thr);
        assert(s == cell_next(prev.0, prev.1, raws.last(), thr));
        assert(forall|j: int| 0 <= j < sub.len() ==> sub[j] == raws[j]);
        let p = cell_progress(prev.0, prev.1, thr);
        let pnew = cell_progress(s.0, s.1, thr);
        if raws.last() == prev.0 {
            assert(pnew == 0);
        } else if s.0 == prev.0 {
            assert(pnew == p + 1);
            assert forall|j: int| raws.len() - pnew <= j < raws.len() implies raws[j] == !s.0 by {
                if j < raws.len() - 1 {
                    assert(sub[j] == !prev.0);
                }
            }
        } else {
            assert(pnew == 0);
        }
    }
}

/// A debounced transition occurs only after `threshold` consecutive
/// consistent raw readings in the new state: if the last reading of a run
/// from a settled cell flips the debounced state, the run is at least
/// `threshold` long and its last `threshold` readings all already show the
/// new state.
pub proof fn lemma_transition_needs_run(deb0: bool, cnt0: int, raws: Seq<bool>, thr: int)
    requires
        cell_wf(deb0, cnt0, thr),
        cell_progress(deb0, cnt0, thr) == 0,
        raws.len() > 0,
        run_cell(deb0, cnt0, raws, thr).0 != run_cell(deb0, cnt0, raws.drop_last(), thr).0,
    ensures
        raws.len() >= thr,
        forall|j: int|
            raws.len() - thr <= j < raws.len() ==> raws[j] == run_cell(deb0, cnt0, raws, thr).0,
{
    let sub = raws.drop_last();
    lemma_trailing_run(deb0, cnt0, sub, thr);
    let prev = run_cell(deb0, cnt0, sub, thr);
    let s = run_cell(deb0, cnt0, raws, thr);
    assert(s == cell_next(prev.0, prev.1, raws.last(), thr));
    assert(raws.last() == !prev.0);
    assert(cell_progress(prev.0, prev.1, thr) == thr - 1);
    assert(sub.len() >= thr - 1);
    assert forall|j: int| raws.len() - thr <= j < raws.len() implies raws[j] == run_cell(
        deb0,
        cnt0,
        raws,
        thr,
    ).0 by {
        if j < raws.len() - 1 {
            assert(sub[j] == !prev.0);
        }
        assert(s.0 == !prev.0);
    }
}

/// A single noisy reading never flips a settled cell (with any real
/// debouncing, i.e. a threshold of at least two).
pub proof fn lemma_single_reading_never_flips(deb0: bool, cnt0: int, raw: bool, thr: int)
    requires
        cell_wf(deb0, cnt0, thr),
        cell_progress(deb0, cnt0, thr) == 0,
        thr >= 2,
    ensures
        cell_next(deb0, cnt0, raw, thr).0 == deb0,
{
}

/// The debouncer: confirmed grid plus one hysteresis counter per cell.
pub struct Debouncer {
    pub debounced: Vec<bool>,
    pub counters: Vec<u8>,
    pub threshold: u8,
}

impl Debouncer {
    /// Debounced state of cell `i` (row-major).
    pub open spec fn deb_at(&self, i: int) -> bool {
        self.debounced@[i]
    }

    /// Counter of cell `i` (row-major).
    pub open spec fn cnt_at(&self, i: int) -> int {
        self.counters@[i] as int
    }

    /// All cells present and every cell well formed.
    pub open spec fn wf(&self) -> bool {
        &&& self.debounced@.len() == ROWS * COLS
        &&& self.counters@.len() == ROWS * COLS
        &&& self.threshold >= 1
        &&& forall|i: int|
            0 <= i < ROWS * COLS ==> cell_wf(self.deb_at(i), self.cnt_at(i), self.threshold as int)
    }

    /// Cell `i` rests at its settled counter value.
    pub open spec fn settled_at(&self, i: int) -> bool {
        cell_progress(self.deb_at(i), self.cnt_at(i), self.threshold as int) == 0
    }

    /// Whether feeding `raw` flips cell `i`.
    pub open spec fn flips_at(&self, raw: Seq<bool>, i: int) -> bool {
        cell_next(self.deb_at(i), self.cnt_at(i), raw[i], self.threshold as int).0
            != self.deb_at(i)
    }

    /// The event emitted for cell `i` when it flips.
    pub open spec fn event_at(&self, raw: Seq<bool>, i: int) -> KeyEvent {
        KeyEvent {
            row: (i / (COLS as int)) as usize,
            col: (i % (COLS as int)) as usize,
            kind: if cell_next(self.deb_at(i), self.cnt_at(i), raw[i], self.threshold as int).0 {
                KeyEventKind::Press
            } else {
                KeyEventKind::Release
            },
        }
    }

    /// The ordered event list produced by the cells below `n`.
    pub open spec fn spec_events_upto(&self, raw: Seq<bool>, n: int) -> Seq<KeyEvent>
        decreases n,
    {
        if n <= 0 {
            Seq::empty()
        } else if self.flips_at(raw, n - 1) {
            self.spec_events_upto(raw, n - 1).push(self.event_at(raw, n - 1))
        } else {
            self.spec_events_upto(raw, n - 1)
        }
    }

    /// The full ordered event list for one raw grid: a function of the
    /// debouncer state and the input alone, so two debouncers fed identical
    /// histories emit identical event sequences.
    pub open spec fn spec_events(&self, raw: Seq<bool>) -> Seq<KeyEvent> {
        self.spec_events_upto(raw, ROWS * COLS)
    }

    /// A fresh debouncer: everything released and settled.
    pub fn new(threshold: u8) -> (d: Debouncer)
        requires
            threshold >= 1,
        ensures
            d.wf(),
            d.threshold == threshold,
            forall|i: int| 0 <= i < ROWS * COLS ==> !d.deb_at(i) && d.settled_at(i),
    {
        Debouncer {
            debounced: vec![false; ROWS * COLS],
            counters: vec![0u8; ROWS * COLS],
            threshold,
        }
    }

    /// Feeds one raw scan through every cell in row-major order, committing
    /// the confirmed transitions and returning them as ordered events.
    ///
    /// Cells evolve independently by `cell_next`; the returned list is
    /// exactly `spec_events`.  When the raw grid agrees with the debounced
    /// grid everywhere, no event is emitted and the debounced grid is
    /// unchanged; if additionally every cell is settled, the whole state is
    /// unchanged.
    pub fn events(&mut self, raw: &Grid) -> (evs: Vec<KeyEvent>)
        requires
            old(self).wf(),
            raw.wf(),
        ensures
            final(self).wf(),
            final(self).threshold == old(self).threshold,
            forall|i: int|
                0 <= i < ROWS * COLS ==> final(self).deb_at(i) == cell_next(
                    old(self).deb_at(i),
                    old(self).cnt_at(i),
                    raw.cells@[i],
                    old(self).threshold as int,
                ).0,
            forall|i: int|
                0 <= i < ROWS * COLS ==> final(self).cnt_at(i) == cell_next(
                    old(self).deb_at(i),
                    old(self).cnt_at(i),
                    raw.cells@[i],
                    old(self).threshold as int,
                ).1,
            evs@ == old(self).spec_events(raw.cells@),
            forall|k: int|
                0 <= k < evs@.len() ==> evs@[k].row < ROWS && evs@[k].col < COLS,
            (forall|i: int| 0 <= i < ROWS * COLS ==> raw.cells@[i] == old(self).deb_at(i))
                ==> evs@.len() == 0 && final(self).debounced@ == old(self).debounced@,
            (forall|i: int|
                0 <= i < ROWS * COLS ==> raw.cells@[i] == old(self).deb_at(i) && old(
                    self,
                ).settled_at(i)) ==> final(self).debounced@ == old(self).debounced@
                && final(self).counters@ == old(self).counters@,
    {
        let thr = self.threshold;
        let mut evs: Vec<KeyEvent> = Vec::new();
        let n = ROWS * COLS;
        let mut i: usize = 0;
        while i < n
            invariant
                n == ROWS * COLS,
                thr == old(self).threshold,
                old(self).wf(),
                raw.wf(),
                i <= n,
                self.threshold == thr,
                self.debounced@.len() == n,
                self.counters@.len() == n,
                forall|j: int| i <= j < n ==> self.deb_at(j) == old(self).deb_at(j),
                forall|j: int| i <= j < n ==> self.cnt_at(j) == old(self).cnt_at(j),
                forall|j: int|
                    0 <= j < i ==> self.deb_at(j) == cell_next(
                        old(self).deb_at(j),
                        old(self).cnt_at(j),
                        raw.cells@[j],
                        thr as int,
                    ).0,
                forall|j: int|
                    0 <= j < i ==> self.cnt_at(j) == cell_next(
                        old(self).deb_at(j),
                        old(self).cnt_at(j),
                        raw.cells@[j],
                        thr as int,
                    ).1,
                evs@ == old(self).spec_events_upto(raw.cells@, i as int),
                forall|k: int|
                    0 <= k < evs@.len() ==> evs@[k].row < ROWS && evs@[k].col < COLS,
            decreases n - i,
        {
            let ghost pre_iter = *self;
            let ghost pre_evs = evs@;
            let deb = self.debounced[i];
            let cnt = self.counters[i];
            let r = raw.cells[i];
            proof {
                assert(cell_wf(old(self).deb_at(i as int), old(self).cnt_at(i as int), thr as int));
                assert(deb == old(self).deb_at(i as int));
                assert(cnt == old(self).cnt_at(i as int));
            }
            let mut new_deb = deb;
            let mut new_cnt: u8 = cnt;
            if r == deb {
                new_cnt = if deb {
                    thr
                } else {
                    0
                };
            } else if deb {
                if cnt <= 1 {
                    new_deb = false;
                    new_cnt = 0;
                } else {
                    new_cnt = cnt - 1;
                }
            } else {
                if cnt + 1 >= thr {
                    new_deb = true;
                    new_cnt = thr;
                } else {
                    new_cnt = cnt + 1;
                }
            }
            if new_deb != deb {
                evs.push(
                    KeyEvent {
                        row: i / COLS,
                        col: i % COLS,
                        kind: if new_deb {
                            KeyEventKind::Press
                        } else {
                            KeyEventKind::Release
                        },
                    },
                );
            }
            let dcell = &mut self.debounced[i];
            *dcell = new_deb;
            let ccell = &mut self.counters[i];
            *ccell = new_cnt;
            proof {
                assert(self.debounced@ == pre_iter.debounced@.update(i as int, new_deb));
                assert(self.counters@ == pre_iter.counters@.update(i as int, new_cnt));
                assert(forall|j: int|
                    0 <= j < n && j != i ==> self.deb_at(j) == pre_iter.deb_at(j)
                        && self.cnt_at(j) == pre_iter.cnt_at(j));
                assert(self.deb_at(i as int) == cell_next(
                    old(self).deb_at(i as int),
                    old(self).cnt_at(i as int),
                    raw.cells@[i as int],
                    thr as int,
                ).0);
                assert(self.cnt_at(i as int) == cell_next(
                    old(self).deb_at(i as int),
                    old(self).cnt_at(i as int),
                    raw.cells@[i as int],
                    thr as int,
                ).1);
                assert(evs@ == old(self).spec_events_upto(raw.cells@, i + 1));
                assert forall|j: int| 0 <= j < i + 1 implies self.deb_at(j) == cell_next(
                    old(self).deb_at(j),
                    old(self).cnt_at(j),
                    raw.cells@[j],
                    thr as int,
                ).0 && self.cnt_at(j) == cell_next(
                    old(self).deb_at(j),
                    old(self).cnt_at(j),
                    raw.cells@[j],
                    thr as int,
                ).1 by {
                    if j != i {
                        assert(self.deb_at(j) == pre_iter.deb_at(j));
                        assert(self.cnt_at(j) == pre_iter.cnt_at(j));
                    }
                }
            }
            i = i + 1;
        }
        proof {
            if forall|j: int| 0 <= j < ROWS * COLS ==> raw.cells@[j] == old(self).deb_at(j) {
                lemma_no_flip_no_events(old(self), raw.cells@, ROWS * COLS);
                assert forall|j: int| 0 <= j < ROWS * COLS implies self.debounced@[j] == old(
                    self,
                ).debounced@[j] by {
                    assert(raw.cells@[j] == old(self).deb_at(j));
                    assert(self.deb_at(j) == cell_next(
                        old(self).deb_at(j),
                        old(self).cnt_at(j),
                        raw.cells@[j],
                        old(self).threshold as int,
                    ).0);
                }
                assert(self.debounced@ =~= old(self).debounced@);
            }
            if forall|j: int|
                0 <= j < ROWS * COLS ==> raw.cells@[j] == old(self).deb_at(j) && old(
                    self,
                ).settled_at(j) {
                lemma_no_flip_no_events(old(self), raw.cells@, ROWS * COLS);
                assert forall|j: int| 0 <= j < ROWS * COLS implies self.debounced@[j] == old(
                    self,
                ).debounced@[j] && self.counters@[j] == old(self).counters@[j] by {
                    assert(raw.cells@[j] == old(self).deb_at(j) && old(self).settled_at(j));
                    assert(self.deb_at(j) == cell_next(
                        old(self).deb_at(j),
                        old(self).cnt_at(j),
                        raw.cells@[j],
                        old(self).threshold as int,
                    ).0);
                    assert(self.cnt_at(j) == cell_next(
                        old(self).deb_at(j),
                        old(self).cnt_at(j),
                        raw.cells@[j],
                        old(self).threshold as int,
                    ).1);
                }
                assert(self.debounced@ =~= old(self).debounced@);
                assert(self.counters@ =~= old(self).counters@);
            }
        }
        evs
    }
}

/// Cells that do not flip contribute no events.
pub proof fn lemma_no_flip_no_events(d: &Debouncer, raw: Seq<bool>, n: int)
    requires
        forall|j: int| 0 <= j < n ==> !d.flips_at(raw, j),
    ensures
        d.spec_events_upto(raw, n).len() == 0,
    decreases n,
{
    if n > 0 {
        lemma_no_flip_no_events(d, raw, n - 1);
    }
}

} // verus!
