//! Report assembler: folds the asserted modifier bits into the modifier byte
//! and packs the asserted key codes, first-asserted order first, deduplicated
//! and truncated to the boot-protocol capacity.

use vstd::prelude::*;

verus! {

/// Key-code slots of a boot-protocol report.
pub const REPORT_CAPACITY: usize = 6;

/// A boot-protocol HID keyboard report: one modifier bitset byte plus up to
/// `REPORT_CAPACITY` distinct key codes.
#[derive(Debug)]
pub struct HidReport {
    pub modifiers: u8,
    pub keys: Vec<u8>,
}

/// The packed key slots after considering the first `n` asserted codes:
/// duplicates are dropped, and once the capacity is reached the remaining
/// (newest) codes are dropped.
pub open spec fn spec_report_keys_upto(s: Seq<u8>, n: int) -> Seq<u8>
    decreases n,
{
    if n <= 0 {
        Seq::empty()
    } else {
        let p = spec_report_keys_upto(s, n - 1);
        if p.contains(s[n - 1]) || p.len() >= REPORT_CAPACITY {
            p
        } else {
            p.push(s[n - 1])
        }
    }
}

/// The packed key slots for the whole asserted-code list.
pub open spec fn spec_report_keys(s: Seq<u8>) -> Seq<u8> {
    spec_report_keys_upto(s, s.len() as int)
}

/// The modifier byte: the bitwise or of `1 << bit` over the asserted bits.
pub open spec fn spec_mod_byte(s: Seq<u8>) -> u8
    decreases s.len(),
{
    if s.len() == 0 {
        0u8
    } else {
        spec_mod_byte(s.drop_last()) | (1u8 << s.last())
    }
}

impl HidReport {
    /// Capacity respected and no duplicate slots.
    pub open spec fn wf(&self) -> bool {
        &&& self.keys@.len() <= REPORT_CAPACITY
        &&& self.keys@.no_duplicates()
    }

    /// The empty report.
    pub fn new() -> (r: HidReport)
        ensures
            r.wf(),
            r.modifiers == 0,
            r.keys@.len() == 0,
    {
        HidReport { modifiers: 0, keys: Vec::new() }
    }
}

/// Whether `x` occurs in `v`.
fn contains_code(v: &Vec<u8>, x: u8) -> (r: bool)
    ensures
        r == v@.contains(x),
{
    let mut i: usize = 0;
    while i < v.len()
        invariant
            i <= v@.len(),
            forall|j: int| 0 <= j < i ==> v@[j] != x,
        decreases v@.len() - i,
    {
        if v[i] == x {
            assert(v@.contains(x));
            return true;
        }
        i = i + 1;
    }
    return false;
}

/// Assembles the report for the given asserted key codes (in assertion
/// order, possibly with duplicates) and asserted modifier bits.
///
/// The result never holds duplicate key codes and never exceeds the
/// capacity; when more distinct codes are asserted than fit, the
/// first-asserted ones are retained and the newest are dropped.
pub fn assemble(keys: &Vec<u8>, mods: &Vec<u8>) -> (r: HidReport)
    requires
        forall|i: int| 0 <= i < mods@.len() ==> mods@[i] < 8,
    ensures
        r.wf(),
        r.keys@ == spec_report_keys(keys@),
        r.modifiers == spec_mod_byte(mods@),
{
    let mut out: Vec<u8> = Vec::new();
    let mut i: usize = 0;
    while i < keys.len()
        invariant
            i <= keys@.len(),
            out@ == spec_report_keys_upto(keys@, i as int),
            out@.len() <= REPORT_CAPACITY,
            out@.no_duplicates(),
        decreases keys@.len() - i,
    {
        let k = keys[i];
        if out.len() < REPORT_CAPACITY && !contains_code(&out, k) {
            out.push(k);
        }
        i = i + 1;
    }
    let mut byte: u8 = 0;
    let mut j: usize = 0;
    while j < mods.len()
        invariant
            j <= mods@.len(),
            forall|i2: int| 0 <= i2 < mods@.len() ==> mods@[i2] < 8,
            byte == spec_mod_byte(mods@.subrange(0, j as int)),
        decreases mods@.len() - j,
    {
        let m = mods[j];
        byte = byte | (1u8 << m);
        proof {
            assert(mods@.subrange(0, j + 1).drop_last() =~= mods@.subrange(0, j as int));
            assert(mods@.subrange(0, j + 1).last() == mods@[j as int]);
        }
        j = j + 1;
    }
    proof {
        assert(mods@.subrange(0, mods@.len() as int) =~= mods@);
    }
    HidReport { modifiers: byte, keys: out }
}

/// Reports compare cheaply, so an unchanged report need not be retransmitted.
impl PartialEq for HidReport {
    fn eq(&self, other: &HidReport) -> (r: bool) {
        if self.modifiers != other.modifiers {
            return false;
        }
        if self.keys.len() != other.keys.len() {
            return false;
        }
        let mut i: usize = 0;
        while i < self.keys.len()
            invariant
                self.keys@.len() == other.keys@.len(),
                i <= self.keys@.len(),
                forall|j: int| 0 <= j < i ==> self.keys@[j] == other.keys@[j],
            decreases self.keys@.len() - i,
        {
            if self.keys[i] != other.keys[i] {
                return false;
            }
            i = i + 1;
        }
        proof {
            assert(self.keys@ =~= other.keys@);
        }
        return true;
    }
}

impl Eq for HidReport {

}

impl vstd::std_specs::cmp::PartialEqSpecImpl for HidReport {
    open spec fn obeys_eq_spec() -> bool {
        true
    }

    open spec fn eq_spec(&self, other: &HidReport) -> bool {
        self.modifiers == other.modifiers && self.keys@ == other.keys@
    }
}

} // verus!
