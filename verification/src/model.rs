//! The mathematical model of the sequencer: its abstract state, the transition
//! relation of a single pull, and the invariant that every reachable state
//! satisfies.

use vstd::arithmetic::div_mod::{lemma_div_is_ordered, lemma_fundamental_div_mod_converse};
use vstd::arithmetic::power2::{
    lemma2_to64, lemma2_to64_rest, lemma_pow2_strictly_increases, lemma_pow2_unfold, pow2,
};
use vstd::prelude::*;

verus! {

/// The stage of the state machine that decides which emission rule the next
/// pull applies.
#[derive(Clone, Copy)]
pub enum Phase {
    /// Nothing emitted yet; the next pull emits the lower endpoint.
    Start,
    /// The lower endpoint was emitted; the next pull emits the upper endpoint
    /// (or finishes, on a single-element domain).
    End,
    /// Both endpoints were emitted; pulls walk the lattice fractions and then
    /// fill remaining gaps linearly.
    Lattice,
    /// Everything was emitted; every further pull signals end-of-sequence.
    Finished,
}

/// The abstract state of a sequencer.
///
/// Offsets are zero-based positions in the normalized domain `0..=range`; a
/// value handed to the consumer is an offset translated by `shift`. `emitted`
/// records, in order, every value produced so far.
#[verifier::ext_equal]
pub ghost struct IterView {
    pub tested: Seq<bool>,
    pub shift: nat,
    pub range: nat,
    pub numerator: nat,
    pub pow: nat,
    pub final_pow: nat,
    pub phase: Phase,
    pub emitted: Seq<nat>,
}

/// The largest power-of-two exponent not exceeding `log2(n)`.
pub open spec fn floor_log2(n: nat) -> nat
    decreases n,
{
    if n < 2 {
        0
    } else {
        1 + floor_log2(n / 2)
    }
}

/// The nearest integer to `log2(n)` (and 0 for `n == 0`): the floor is rounded
/// up exactly when `n` lies at or above the geometric midpoint `2^(f + 1/2)`,
/// i.e. when `n * n >= 2^(2 * f + 1)`.
pub open spec fn round_log2(n: nat) -> nat {
    if n == 0 {
        0
    } else {
        let f = floor_log2(n);
        if n * n < pow2(2 * f + 1) {
            f
        } else {
            f + 1
        }
    }
}

/// The lattice candidate offset: `range * num / 2^pw`, rounded to the nearest
/// integer with halves rounded up.
pub open spec fn lattice_val(range: nat, num: nat, pw: nat) -> nat {
    (range * num + pow2(pw) / 2) / pow2(pw)
}

/// What a sweep over the lattice fractions leaves behind: the updated bit set,
/// the fraction cursor where the sweep stopped, and the offset found, if any.
#[verifier::ext_equal]
pub ghost struct SweepState {
    pub tested: Seq<bool>,
    pub numerator: nat,
    pub pow: nat,
    pub found: Option<nat>,
}

/// Walk the fractions `num / 2^pw, (num+1) / 2^pw, ..., 1 / 2^(pw+1), ...`
/// while `pw <= fp`, stopping at the first fraction whose rounded lattice
/// point is still untested; that point is marked tested and returned.
pub open spec fn sweep(tested: Seq<bool>, range: nat, num: nat, pw: nat, fp: nat) -> SweepState
    decreases fp + 1 - pw, pow2(pw) - num,
        when pw > fp || (1 <= num < pow2(pw))
{
    if pw > fp {
        SweepState { tested, numerator: num, pow: pw, found: None }
    } else {
        let val = lattice_val(range, num, pw);
        let next_num: nat = if num + 1 == pow2(pw) {
            1
        } else {
            num + 1
        };
        let next_pow: nat = if num + 1 == pow2(pw) {
            pw + 1
        } else {
            pw
        };
        if val < tested.len() && !tested[val as int] {
            SweepState {
                tested: tested.update(val as int, true),
                numerator: next_num,
                pow: next_pow,
                found: Some(val),
            }
        } else {
            sweep(tested, range, next_num, next_pow, fp)
        }
    }
}

/// What the gap-filling scan leaves behind: the updated bit set, the cursor
/// just past where the scan stopped, and the offset found, if any.
#[verifier::ext_equal]
pub ghost struct ScanState {
    pub tested: Seq<bool>,
    pub cursor: nat,
    pub found: Option<nat>,
}

/// Scan offsets `cursor, cursor + 1, ...` up to `range`, stopping at the first
/// untested one; that offset is marked tested and returned.
pub open spec fn scan(tested: Seq<bool>, range: nat, cursor: nat) -> ScanState
    decreases range + 1 - cursor,
        when cursor <= range + 1
{
    if cursor > range {
        ScanState { tested, cursor, found: None }
    } else if cursor < tested.len() && !tested[cursor as int] {
        ScanState { tested: tested.update(cursor as int, true), cursor: cursor + 1, found: Some(cursor) }
    } else {
        scan(tested, range, cursor + 1)
    }
}

/// The outcome of one pull: the successor state and the value produced, if
/// any. `out` is already translated by `shift`.
#[verifier::ext_equal]
pub ghost struct StepResult {
    pub iter: IterView,
    pub out: Option<nat>,
}

/// One pull of the sequencer, as a function of the abstract state alone.
pub open spec fn step(v: IterView) -> StepResult {
    match v.phase {
        Phase::Start => StepResult {
            iter: IterView {
                tested: v.tested.update(0, true),
                phase: Phase::End,
                emitted: v.emitted.push(v.shift),
                ..v
            },
            out: Some(v.shift),
        },
        Phase::End => {
            if v.range == 0 {
                StepResult { iter: IterView { phase: Phase::Finished, ..v }, out: None }
            } else {
                StepResult {
                    iter: IterView {
                        tested: v.tested.update(v.range as int, true),
                        phase: Phase::Lattice,
                        emitted: v.emitted.push(v.shift + v.range),
                        ..v
                    },
                    out: Some(v.shift + v.range),
                }
            }
        },
        Phase::Lattice => {
            let s = sweep(v.tested, v.range, v.numerator, v.pow, v.final_pow);
            match s.found {
                Some(val) => StepResult {
                    iter: IterView {
                        tested: s.tested,
                        numerator: s.numerator,
                        pow: s.pow,
                        emitted: v.emitted.push(v.shift + val),
                        ..v
                    },
                    out: Some(v.shift + val),
                },
                None => {
                    let sc = scan(s.tested, v.range, s.numerator);
                    match sc.found {
                        Some(val) => StepResult {
                            iter: IterView {
                                tested: sc.tested,
                                numerator: sc.cursor,
                                pow: s.pow,
                                phase: if sc.cursor > v.range {
                                    Phase::Finished
                                } else {
                                    Phase::Lattice
                                },
                                emitted: v.emitted.push(v.shift + val),
                                ..v
                            },
                            out: Some(v.shift + val),
                        },
                        None => StepResult {
                            iter: IterView {
                                numerator: sc.cursor,
                                pow: s.pow,
                                phase: Phase::Finished,
                                ..v
                            },
                            out: None,
                        },
                    }
                },
            }
        },
        Phase::Finished => StepResult { iter: v, out: None },
    }
}

/// The state a sequencer is constructed in, for the normalized domain
/// `0..=range` translated by `shift`.
pub open spec fn init_view(shift: nat, range: nat) -> IterView {
    IterView {
        tested: Seq::new(range + 1, |i: int| false),
        shift,
        range,
        numerator: 1,
        pow: 1,
        final_pow: round_log2(range),
        phase: Phase::Start,
        emitted: Seq::empty(),
    }
}

/// The set of values a full run over the domain must produce.
pub open spec fn range_values(shift: nat, range: nat) -> Set<nat> {
    Set::new(|x: nat| shift <= x <= shift + range)
}

/// The record of produced values agrees with the bit set: an offset's bit is
/// set exactly when its translated value was emitted, every emitted value lies
/// in the domain, and no value was emitted twice.
pub open spec fn emitted_matches(v: IterView) -> bool {
    &&& forall|i: int|
        0 <= i <= v.range ==> (#[trigger] v.tested[i] <==> v.emitted.contains((v.shift + i) as nat))
    &&& forall|k: int| 0 <= k < v.emitted.len() ==> v.shift <= #[trigger] v.emitted[k] <= v.shift + v.range
    &&& forall|k1: int, k2: int|
        0 <= k1 < k2 < v.emitted.len() ==> v.emitted[k1] != v.emitted[k2]
}

/// The phase-specific part of the invariant.
pub open spec fn phase_inv(v: IterView) -> bool {
    match v.phase {
        Phase::Start => {
            &&& v.numerator == 1
            &&& v.pow == 1
            &&& v.emitted.len() == 0
            &&& forall|i: int| 0 <= i <= v.range ==> !(#[trigger] v.tested[i])
        },
        Phase::End => {
            &&& v.numerator == 1
            &&& v.pow == 1
            &&& v.emitted =~= seq![v.shift]
            &&& v.tested[0]
            &&& forall|i: int| 1 <= i <= v.range ==> !(#[trigger] v.tested[i])
        },
        Phase::Lattice => {
            &&& v.range >= 1
            &&& v.numerator >= 1
            &&& v.pow >= 1
            &&& v.tested[0]
            &&& v.tested[v.range as int]
            &&& v.emitted.len() >= 2
            &&& v.emitted[0] == v.shift
            &&& v.emitted[1] == v.shift + v.range
            &&& (v.pow <= v.final_pow ==> v.numerator < pow2(v.pow))
            &&& (v.pow > v.final_pow ==> {
                &&& v.pow == v.final_pow + 1
                &&& v.numerator <= v.range + 1
                &&& forall|j: int| 0 <= j < v.numerator ==> #[trigger] v.tested[j]
            })
        },
        Phase::Finished => {
            forall|i: int| 0 <= i <= v.range ==> #[trigger] v.tested[i]
        },
    }
}

/// The invariant every reachable sequencer state satisfies: the bit set covers
/// the domain, the domain fits the machine word, `final_pow` is the rounded
/// logarithm the construction fixed, the emission record agrees with the bit
/// set, and the phase-specific bookkeeping holds.
pub open spec fn inv(v: IterView) -> bool {
    &&& v.tested.len() == v.range + 1
    &&& v.range + 1 <= usize::MAX
    &&& v.shift + v.range <= usize::MAX
    &&& v.final_pow == round_log2(v.range)
    &&& emitted_matches(v)
    &&& phase_inv(v)
}

/// The produced value of an executable pull, lifted to the model.
pub open spec fn out_as_nat(r: Option<usize>) -> Option<nat> {
    match r {
        Some(x) => Some(x as nat),
        None => None,
    }
}

/// `pow2(floor_log2(n))` brackets `n` from below, `pow2(floor_log2(n) + 1)`
/// from above.
pub proof fn lemma_floor_log2_bounds(n: nat)
    requires
        1 <= n,
    ensures
        pow2(floor_log2(n)) <= n < pow2(floor_log2(n) + 1),
    decreases n,
{
    lemma2_to64();
    if n < 2 {
    } else {
        lemma_floor_log2_bounds(n / 2);
        let f1 = floor_log2(n / 2);
        assert(floor_log2(n) == f1 + 1);
        lemma_pow2_unfold(f1 + 1);
        lemma_pow2_unfold(f1 + 2);
        assert(n == 2 * (n / 2) + n % 2);
    }
}

/// The rounded logarithm never exceeds the floor by more than one.
pub proof fn lemma_round_log2_near_floor(n: nat)
    requires
        1 <= n,
    ensures
        floor_log2(n) <= round_log2(n) <= floor_log2(n) + 1,
{
}

/// On this machine's word size, the lattice denominators a sequencer for a
/// representable domain can reach all fit: `2^final_pow <= usize::MAX + 1`,
/// and `final_pow` itself is at most 64.
pub proof fn lemma_final_pow_fits(range: nat)
    requires
        1 <= range,
        range + 1 <= usize::MAX,
    ensures
        pow2(round_log2(range)) <= usize::MAX + 1,
        round_log2(range) <= 64,
{
    lemma2_to64();
    lemma2_to64_rest();
    lemma_floor_log2_bounds(range);
    lemma_round_log2_near_floor(range);
    let f = floor_log2(range);
    let r = round_log2(range);
    assert(usize::MAX == 0xffff_ffff || usize::MAX == 0xffff_ffff_ffff_ffff);
    if usize::MAX == 0xffff_ffff {
        if f >= 32 {
            if f > 32 {
                lemma_pow2_strictly_increases(32, f);
            }
            assert(false);
        }
        if r < 32 {
            lemma_pow2_strictly_increases(r, 32);
        }
    } else {
        if f >= 64 {
            if f > 64 {
                lemma_pow2_strictly_increases(64, f);
            }
            assert(false);
        }
        if r < 64 {
            lemma_pow2_strictly_increases(r, 64);
        }
    }
}

/// A lattice candidate never leaves the domain: for a proper fraction
/// `num / 2^pw`, the rounded point is at most `range`.
pub proof fn lemma_lattice_val_le_range(range: nat, num: nat, pw: nat)
    requires
        1 <= range,
        1 <= num,
        num < pow2(pw),
        1 <= pw,
    ensures
        lattice_val(range, num, pw) <= range,
{
    let d = pow2(pw);
    lemma2_to64();
    lemma_pow2_strictly_increases(0, pw);
    assert(2 <= d);
    assert(range * num + d / 2 <= range * d + (d - 1)) by (nonlinear_arith)
        requires
            num <= d - 1,
            1 <= range,
            2 <= d,
    ;
    lemma_fundamental_div_mod_converse(
        (range * d + (d - 1)) as int,
        d as int,
        range as int,
        (d - 1) as int,
    );
    lemma_div_is_ordered(
        (range * num + d / 2) as int,
        (range * d + (d - 1)) as int,
        d as int,
    );
}

/// What a lattice sweep guarantees: it stops either at an untested in-domain
/// offset, which it marks, or at the fraction cursor reset just past
/// `final_pow` with the bit set untouched; the cursor bounds of the invariant
/// hold either way.
pub proof fn lemma_sweep(tested: Seq<bool>, range: nat, num: nat, pw: nat, fp: nat)
    requires
        tested.len() == range + 1,
        1 <= range,
        1 <= num,
        1 <= pw,
        pw <= fp ==> num < pow2(pw),
        pw > fp ==> pw == fp + 1,
    ensures
        ({
            let s = sweep(tested, range, num, pw, fp);
            &&& s.tested.len() == tested.len()
            &&& 1 <= s.numerator
            &&& 1 <= s.pow
            &&& (s.pow <= fp ==> s.numerator < pow2(s.pow))
            &&& (s.pow > fp ==> s.pow == fp + 1)
            &&& match s.found {
                Some(val) => {
                    &&& val <= range
                    &&& !tested[val as int]
                    &&& s.tested == tested.update(val as int, true)
                    &&& (s.pow > fp ==> s.numerator == 1)
                },
                None => {
                    &&& s.tested == tested
                    &&& s.pow == fp + 1
                    &&& s.numerator == (if pw > fp {
                        num
                    } else {
                        1
                    })
                },
            }
        }),
    decreases fp + 1 - pw, pow2(pw) - num,
{
    lemma2_to64();
    if pw > fp {
    } else {
        lemma_lattice_val_le_range(range, num, pw);
        let val = lattice_val(range, num, pw);
        let next_num: nat = if num + 1 == pow2(pw) {
            1
        } else {
            num + 1
        };
        let next_pow: nat = if num + 1 == pow2(pw) {
            pw + 1
        } else {
            pw
        };
        lemma_pow2_strictly_increases(0, next_pow);
        if val < tested.len() && !tested[val as int] {
        } else {
            lemma_sweep(tested, range, next_num, next_pow, fp);
        }
    }
}

/// What the gap-filling scan guarantees: starting from a cursor below which
/// everything is tested, it stops either at the first untested offset, which
/// it marks, or just past `range` with every offset tested.
pub proof fn lemma_scan(tested: Seq<bool>, range: nat, cursor: nat)
    requires
        tested.len() == range + 1,
        cursor <= range + 1,
        forall|j: int| 0 <= j < cursor ==> #[trigger] tested[j],
    ensures
        ({
            let sc = scan(tested, range, cursor);
            &&& sc.tested.len() == tested.len()
            &&& match sc.found {
                Some(val) => {
                    &&& cursor <= val <= range
                    &&& !tested[val as int]
                    &&& sc.tested == tested.update(val as int, true)
                    &&& sc.cursor == val + 1
                    &&& forall|j: int| 0 <= j < sc.cursor ==> #[trigger] sc.tested[j]
                },
                None => {
                    &&& sc.tested == tested
                    &&& sc.cursor == range + 1
                    &&& forall|j: int| 0 <= j <= range ==> #[trigger] tested[j]
                },
            }
        }),
    decreases range + 1 - cursor,
{
    if cursor > range {
    } else if cursor < tested.len() && !tested[cursor as int] {
    } else {
        lemma_scan(tested, range, cursor + 1);
    }
}

/// Pushing onto a sequence extends what it contains by exactly the pushed
/// value.
pub proof fn lemma_push_contains(s: Seq<nat>, x: nat, y: nat)
    ensures
        s.push(x).contains(y) <==> (s.contains(y) || y == x),
{
    if s.contains(y) {
        let i = choose|i: int| 0 <= i < s.len() && s[i] == y;
        assert(s.push(x)[i] == y);
    }
    if y == x {
        assert(s.push(x)[s.len() as int] == y);
    }
    if s.push(x).contains(y) {
        let i = choose|i: int| 0 <= i < s.push(x).len() && s.push(x)[i] == y;
        if i < s.len() {
            assert(s[i] == y);
        }
    }
}

/// Emitting one untested in-domain offset — marking its bit and appending its
/// translated value — keeps the emission record consistent, and the value was
/// not produced before.
proof fn lemma_emit(v: IterView, w: IterView, val: nat)
    requires
        emitted_matches(v),
        v.tested.len() == v.range + 1,
        val <= v.range,
        !v.tested[val as int],
        w.shift == v.shift,
        w.range == v.range,
        w.tested == v.tested.update(val as int, true),
        w.emitted == v.emitted.push(v.shift + val),
    ensures
        emitted_matches(w),
        !v.emitted.contains(v.shift + val),
{
    assert(!v.emitted.contains((v.shift + val as int) as nat));
    assert forall|i: int| 0 <= i <= w.range implies (#[trigger] w.tested[i]
        <==> w.emitted.contains((w.shift + i) as nat)) by {
        lemma_push_contains(v.emitted, v.shift + val, (v.shift + i) as nat);
        assert(v.tested[i] <==> v.emitted.contains((v.shift + i) as nat));
    }
    assert forall|k: int| 0 <= k < w.emitted.len() implies w.shift <= #[trigger] w.emitted[k]
        <= w.shift + w.range by {
        if k < v.emitted.len() {
            assert(v.shift <= v.emitted[k] <= v.shift + v.range);
        }
    }
    assert forall|k1: int, k2: int| 0 <= k1 < k2 < w.emitted.len() implies w.emitted[k1]
        != w.emitted[k2] by {
        if k2 < v.emitted.len() {
            assert(v.emitted[k1] != v.emitted[k2]);
        } else {
            assert(w.emitted[k2] == v.shift + val);
            assert(v.emitted.contains(v.emitted[k1]));
        }
    }
}

/// One pull preserves the invariant; it produces a fresh in-domain value and
/// records it, or produces nothing and is finished.
pub proof fn lemma_step_inv(v: IterView)
    requires
        inv(v),
    ensures
        inv(step(v).iter),
        step(v).iter.shift == v.shift,
        step(v).iter.range == v.range,
        step(v).iter.final_pow == v.final_pow,
        match step(v).out {
            Some(x) => {
                &&& v.shift <= x <= v.shift + v.range
                &&& step(v).iter.emitted == v.emitted.push(x)
                &&& !v.emitted.contains(x)
            },
            None => {
                &&& step(v).iter.emitted == v.emitted
                &&& step(v).iter.phase is Finished
            },
        },
{
    lemma2_to64();
    let w = step(v).iter;
    match v.phase {
        Phase::Start => {
            lemma_emit(v, w, 0);
        },
        Phase::End => {
            if v.range == 0 {
            } else {
                lemma_emit(v, w, v.range);
                assert(w.emitted[0] == v.shift);
                assert(w.emitted[1] == v.shift + v.range);
            }
        },
        Phase::Lattice => {
            lemma_sweep(v.tested, v.range, v.numerator, v.pow, v.final_pow);
            let s = sweep(v.tested, v.range, v.numerator, v.pow, v.final_pow);
            match s.found {
                Some(val) => {
                    lemma_emit(v, w, val);
                    assert(w.emitted[0] == v.shift);
                    assert(w.emitted[1] == v.shift + v.range);
                    assert(w.tested[0]);
                    assert(w.tested[v.range as int]);
                },
                None => {
                    let cursor = s.numerator;
                    assert(forall|j: int| 0 <= j < cursor ==> #[trigger] v.tested[j]);
                    lemma_scan(s.tested, v.range, cursor);
                    let sc = scan(s.tested, v.range, cursor);
                    match sc.found {
                        Some(val) => {
                            lemma_emit(v, w, val);
                            assert(w.emitted[0] == v.shift);
                            assert(w.emitted[1] == v.shift + v.range);
                            assert(w.tested[0]);
                            assert(w.tested[v.range as int]);
                        },
                        None => {
                        },
                    }
                },
            }
        },
        Phase::Finished => {
        },
    }
}

/// A freshly constructed sequencer satisfies the invariant.
pub proof fn lemma_init_inv(shift: nat, range: nat)
    requires
        range + 1 <= usize::MAX,
        shift + range <= usize::MAX,
    ensures
        inv(init_view(shift, range)),
{
    let v = init_view(shift, range);
    assert forall|i: int| 0 <= i <= range implies !(#[trigger] v.tested[i])
        && !v.emitted.contains((shift + i) as nat) by {
        assert(v.emitted.len() == 0);
    }
}

/// The outputs of the first `n` pulls from state `v`.
pub open spec fn run_outputs(v: IterView, n: nat) -> Seq<Option<nat>>
    decreases n,
{
    if n == 0 {
        Seq::empty()
    } else {
        seq![step(v).out] + run_outputs(step(v).iter, (n - 1) as nat)
    }
}

/// A produced value, translated by `off`.
pub open spec fn shift_opt(o: Option<nat>, off: nat) -> Option<nat> {
    match o {
        Some(x) => Some((x + off) as nat),
        None => None,
    }
}

/// A sequence of values, each translated by `off`.
pub open spec fn shift_seq(s: Seq<nat>, off: nat) -> Seq<nat> {
    Seq::new(s.len(), |k: int| (s[k] + off) as nat)
}

/// A sequence of pull outcomes, each produced value translated by `off`.
pub open spec fn shift_outputs(s: Seq<Option<nat>>, off: nat) -> Seq<Option<nat>> {
    Seq::new(s.len(), |k: int| shift_opt(s[k], off))
}

/// The same sequencer state, translated to sit `off` above zero instead of at
/// its own shift.
pub open spec fn reshift(v: IterView, off: nat) -> IterView {
    IterView { shift: off, emitted: shift_seq(v.emitted, off), ..v }
}

} // verus!
