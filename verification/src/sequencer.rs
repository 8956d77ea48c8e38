//! The executable sequencer and the two range adapters that construct it.

use crate::ext::{bits_get, bits_new, bits_of, bits_set};
use crate::model::{
    init_view, inv, lattice_val, lemma_final_pow_fits, lemma_lattice_val_le_range, lemma_scan,
    lemma_step_inv, lemma_sweep, out_as_nat, round_log2, scan, step, sweep, IterView, Phase,
    ScanState, SweepState,
};
use bit_vec::BitVec;
use core::ops::Range;
use core::ops::RangeInclusive;
use vstd::arithmetic::power2::{lemma2_to64, lemma2_to64_rest, lemma_pow2_strictly_increases, pow2};
use vstd::prelude::*;

verus! {

/// A finite, non-restartable generator that emits every integer of its range
/// exactly once, endpoints first, then lattice points of increasing binary
/// subdivision, then the gaps the rounding left.
pub struct RlpIter {
    tested: BitVec,
    shift: usize,
    range: usize,
    numerator: usize,
    pow: usize,
    final_pow: usize,
    state: Phase,
    emitted: Ghost<Seq<nat>>,
}

impl View for RlpIter {
    type V = IterView;

    closed spec fn view(&self) -> IterView {
        IterView {
            tested: bits_of(self.tested),
            shift: self.shift as nat,
            range: self.range as nat,
            numerator: self.numerator as nat,
            pow: self.pow as nat,
            final_pow: self.final_pow as nat,
            phase: self.state,
            emitted: self.emitted@,
        }
    }
}

impl RlpIter {
    /// The sequencer is in a reachable, internally consistent state.
    pub open spec fn wf(&self) -> bool {
        inv(self@)
    }

    /// Produces the next value of the permutation, translated into the
    /// original range, or `None` once every value has been produced. The
    /// result and the successor state are exactly one `step` of the model, so
    /// a full run emits each value of the range exactly once and keeps
    /// returning `None` after the first `None`.
    pub fn next(&mut self) -> (r: Option<usize>)
        requires
            old(self).wf(),
        ensures
            final(self).wf(),
            final(self)@ == step(old(self)@).iter,
            out_as_nat(r) == step(old(self)@).out,
    {
        proof {
            lemma_step_inv(self@);
        }
        let ghost v0 = self@;
        match self.state {
            Phase::Start => {
                bits_set(&mut self.tested, 0, true);
                self.state = Phase::End;
                self.emitted = Ghost(self.emitted@.push(v0.shift));
                proof {
                    assert(self@ =~= step(v0).iter);
                }
                Some(self.shift)
            },
            Phase::End => {
                if self.range == 0 {
                    self.state = Phase::Finished;
                    proof {
                        assert(self@ =~= step(v0).iter);
                    }
                    None
                } else {
                    bits_set(&mut self.tested, self.range, true);
                    self.state = Phase::Lattice;
                    self.emitted = Ghost(self.emitted@.push(v0.shift + v0.range));
                    proof {
                        assert(self@ =~= step(v0).iter);
                    }
                    Some(self.shift + self.range)
                }
            },
            Phase::Lattice => {
                let ghost s = sweep(v0.tested, v0.range, v0.numerator, v0.pow, v0.final_pow);
                proof {
                    lemma_sweep(v0.tested, v0.range, v0.numerator, v0.pow, v0.final_pow);
                    lemma_final_pow_fits(v0.range);
                    lemma2_to64();
                }
                let mut out: Option<usize> = None;
                while self.pow <= self.final_pow && out.is_none()
                    invariant
                        self.state is Lattice,
                        self.shift as nat == v0.shift,
                        self.range as nat == v0.range,
                        self.final_pow as nat == v0.final_pow,
                        self.emitted@ == v0.emitted,
                        bits_of(self.tested).len() == v0.range + 1,
                        1 <= v0.range,
                        v0.range + 1 <= usize::MAX,
                        v0.shift + v0.range <= usize::MAX,
                        v0.final_pow <= 64,
                        pow2(v0.final_pow) <= usize::MAX + 1,
                        1 <= self.numerator as nat,
                        1 <= self.pow as nat,
                        self.pow as nat <= v0.final_pow + 1,
                        self.pow as nat <= v0.final_pow ==> (self.numerator as nat) < pow2(
                            self.pow as nat,
                        ),
                        out is None ==> bits_of(self.tested) == v0.tested && s == sweep(
                            bits_of(self.tested),
                            v0.range,
                            self.numerator as nat,
                            self.pow as nat,
                            v0.final_pow,
                        ),
                        out matches Some(x) ==> x as nat <= v0.range && s == (SweepState {
                            tested: bits_of(self.tested),
                            numerator: self.numerator as nat,
                            pow: self.pow as nat,
                            found: Some(x as nat),
                        }),
                    decreases
                            v0.final_pow + 1 - self.pow,
                            pow2(self.pow as nat) - self.numerator,
                {
                    let ghost pre_tested = bits_of(self.tested);
                    let ghost pre_num = self.numerator as nat;
                    let ghost pre_pow = self.pow as nat;
                    proof {
                        lemma2_to64();
                        if (self.pow as nat) < v0.final_pow {
                            lemma_pow2_strictly_increases(self.pow as nat, v0.final_pow);
                        }
                        assert((self.numerator as nat) < pow2(self.pow as nat));
                        assert(pow2(self.pow as nat) <= usize::MAX + 1);
                    }
                    let denominator: u128 = pow2_u128(self.pow);
                    proof {
                        assert((self.range as nat) * (self.numerator as nat) <= 0xffff_ffff_ffff_ffff
                            * 0xffff_ffff_ffff_ffff) by (nonlinear_arith)
                            requires
                                self.range as nat <= 0xffff_ffff_ffff_ffff,
                                self.numerator as nat <= 0xffff_ffff_ffff_ffff,
                        ;
                    }
                    let prod: u128 = (self.range as u128) * (self.numerator as u128);
                    let val_u: u128 = (prod + denominator / 2) / denominator;
                    proof {
                        lemma_lattice_val_le_range(v0.range, pre_num, pre_pow);
                        assert(val_u as nat == lattice_val(v0.range, pre_num, pre_pow));
                        assert(val_u <= self.range as u128);
                    }
                    let val: usize = val_u as usize;
                    if !bits_get(&self.tested, val) {
                        bits_set(&mut self.tested, val, true);
                        out = Some(val);
                    }
                    if (self.numerator as u128) == denominator - 1 {
                        self.numerator = 1;
                        self.pow = self.pow + 1;
                    } else {
                        self.numerator = self.numerator + 1;
                    }
                    proof {
                        lemma2_to64();
                        lemma_pow2_strictly_increases(0, pre_pow);
                        if self.pow as nat == pre_pow + 1 {
                            lemma_pow2_strictly_increases(0, self.pow as nat);
                        } else {
                            assert(self.numerator as nat == pre_num + 1);
                            assert(pre_num + 1 != pow2(pre_pow));
                            assert(pre_num + 1 < pow2(pre_pow));
                        }
                        let unfolded = sweep(pre_tested, v0.range, pre_num, pre_pow, v0.final_pow);
                        if !pre_tested[val as int] {
                            assert(unfolded == SweepState {
                                tested: pre_tested.update(val as int, true),
                                numerator: self.numerator as nat,
                                pow: self.pow as nat,
                                found: Some(val as nat),
                            });
                        } else {
                            assert(unfolded == sweep(
                                pre_tested,
                                v0.range,
                                self.numerator as nat,
                                self.pow as nat,
                                v0.final_pow,
                            ));
                        }
                    }
                }
                if let Some(val) = out {
                    self.emitted = Ghost(self.emitted@.push(v0.shift + val as nat));
                    proof {
                        assert(self@ =~= step(v0).iter);
                    }
                    return Some(val + self.shift);
                }
                let ghost sc = scan(s.tested, v0.range, s.numerator);
                proof {
                    assert(s == sweep(
                        bits_of(self.tested),
                        v0.range,
                        self.numerator as nat,
                        self.pow as nat,
                        v0.final_pow,
                    ));
                    assert(s.found is None && s.tested == bits_of(self.tested) && s.numerator
                        == self.numerator as nat && s.pow == self.pow as nat);
                    assert(forall|j: int|
                        0 <= j < s.numerator ==> #[trigger] bits_of(self.tested)[j]);
                    lemma_scan(s.tested, v0.range, s.numerator);
                }
                while self.numerator <= self.range && out.is_none()
                    invariant
                        self.state is Lattice,
                        self.shift as nat == v0.shift,
                        self.range as nat == v0.range,
                        self.final_pow as nat == v0.final_pow,
                        self.pow as nat == s.pow,
                        self.emitted@ == v0.emitted,
                        bits_of(self.tested).len() == v0.range + 1,
                        1 <= v0.range,
                        v0.range + 1 <= usize::MAX,
                        v0.shift + v0.range <= usize::MAX,
                        1 <= self.numerator as nat,
                        self.numerator as nat <= v0.range + 1,
                        out is None ==> sc == scan(
                            bits_of(self.tested),
                            v0.range,
                            self.numerator as nat,
                        ) && bits_of(self.tested) == s.tested,
                        out matches Some(x) ==> x as nat <= v0.range && sc == (ScanState {
                            tested: bits_of(self.tested),
                            cursor: self.numerator as nat,
                            found: Some(x as nat),
                        }),
                    decreases v0.range + 1 - self.numerator,
                {
                    let ghost pre_tested = bits_of(self.tested);
                    let ghost pre_cursor = self.numerator as nat;
                    if !bits_get(&self.tested, self.numerator) {
                        bits_set(&mut self.tested, self.numerator, true);
                        out = Some(self.numerator);
                        self.numerator = self.numerator + 1;
                    } else {
                        self.numerator = self.numerator + 1;
                    }
                    proof {
                        let unfolded = scan(pre_tested, v0.range, pre_cursor);
                        if !pre_tested[pre_cursor as int] {
                            assert(unfolded == ScanState {
                                tested: pre_tested.update(pre_cursor as int, true),
                                cursor: self.numerator as nat,
                                found: Some(pre_cursor),
                            });
                        } else {
                            assert(unfolded == scan(
                                pre_tested,
                                v0.range,
                                self.numerator as nat,
                            ));
                        }
                    }
                }
                if self.numerator > self.range {
                    self.state = Phase::Finished;
                }
                match out {
                    Some(val) => {
                        self.emitted = Ghost(self.emitted@.push(v0.shift + val as nat));
                        proof {
                            assert(self@ =~= step(v0).iter);
                        }
                        Some(val + self.shift)
                    },
                    None => {
                        proof {
                            assert(sc == scan(
                                bits_of(self.tested),
                                v0.range,
                                self.numerator as nat,
                            ));
                            assert(self@ =~= step(v0).iter);
                        }
                        None
                    },
                }
            },
            Phase::Finished => {
                proof {
                    assert(self@ =~= step(v0).iter);
                }
                None
            },
        }
    }
}

/// `2^e`, computed by repeated doubling.
fn pow2_u128(e: usize) -> (r: u128)
    requires
        e < 128,
    ensures
        r == pow2(e as nat),
{
    proof {
        lemma2_to64();
        lemma2_to64_rest();
        vstd::arithmetic::power2::lemma_pow2_adds(64, 63);
    }
    let mut r: u128 = 1;
    let mut i: usize = 0;
    while i < e
        invariant
            i <= e,
            e < 128,
            r == pow2(i as nat),
            pow2(127) == 0x8000_0000_0000_0000_0000_0000_0000_0000,
        decreases e - i,
    {
        proof {
            if (i as nat) < 127 {
                lemma_pow2_strictly_increases(i as nat, 127);
            }
            assert(pow2((i + 1) as nat) == 2 * pow2(i as nat)) by {
                vstd::arithmetic::power2::lemma_pow2_unfold((i + 1) as nat);
            }
        }
        r = r * 2;
        i = i + 1;
    }
    r
}

/// The nearest integer to the base-2 logarithm of `i`, with `ilog2(0) == 0`:
/// the exponent that bounds the sequencer's lattice phase.
pub fn ilog2(i: usize) -> (r: usize)
    ensures
        r == round_log2(i as nat),
{
    if i == 0 {
        return 0;
    }
    let mut n: usize = i;
    let mut f: usize = 0;
    proof {
        lemma2_to64();
    }
    while n >= 2
        invariant
            1 <= n,
            n <= i,
            f <= 64,
            crate::model::floor_log2(i as nat) == f + crate::model::floor_log2(n as nat),
            pow2(f as nat) * n <= i,
        decreases n,
    {
        proof {
            lemma2_to64();
            assert(pow2(f as nat) <= i) by (nonlinear_arith)
                requires
                    pow2(f as nat) * n <= i,
                    n >= 1,
            ;
            assert(i as nat <= 0xffff_ffff_ffff_ffff);
            if f >= 64 {
                if f > 64 {
                    lemma_pow2_strictly_increases(64, f as nat);
                }
                assert(false);
            }
            assert(crate::model::floor_log2(n as nat) == 1 + crate::model::floor_log2(
                (n / 2) as nat,
            ));
            assert(pow2((f + 1) as nat) == 2 * pow2(f as nat)) by {
                vstd::arithmetic::power2::lemma_pow2_unfold((f + 1) as nat);
            }
            assert(pow2((f + 1) as nat) * (n / 2) as nat <= i) by (nonlinear_arith)
                requires
                    pow2(f as nat) * n <= i,
                    pow2((f + 1) as nat) == 2 * pow2(f as nat),
                    n >= 2,
            ;
        }
        n = n / 2;
        f = f + 1;
    }
    proof {
        lemma2_to64();
        assert(pow2(f as nat) <= i) by (nonlinear_arith)
            requires
                pow2(f as nat) * n <= i,
                n >= 1,
        ;
        assert(i as nat <= 0xffff_ffff_ffff_ffff);
        if f >= 64 {
            if f > 64 {
                lemma_pow2_strictly_increases(64, f as nat);
            }
            assert(pow2(64) <= pow2(f as nat));
            assert(false);
        }
        assert(crate::model::floor_log2(1) == 0);
        assert(crate::model::floor_log2(i as nat) == f);
        assert((i as nat) * (i as nat) <= 0xffff_ffff_ffff_ffff * 0xffff_ffff_ffff_ffff)
            by (nonlinear_arith)
            requires
                i as nat <= 0xffff_ffff_ffff_ffff,
        ;
    }
    let sq: u128 = (i as u128) * (i as u128);
    let threshold: u128 = pow2_u128(2 * f + 1);
    if sq < threshold {
        f
    } else {
        f + 1
    }
}

/// Builds a fresh sequencer for the normalized domain `0..=range`, translated
/// by `shift`.
fn make_iter(shift: usize, range: usize) -> (it: RlpIter)
    requires
        range < usize::MAX,
        shift + range <= usize::MAX,
    ensures
        it.wf(),
        it@ == init_view(shift as nat, range as nat),
{
    let fp: usize = ilog2(range);
    let it = RlpIter {
        tested: bits_new(range + 1, false),
        shift,
        range,
        numerator: 1,
        pow: 1,
        final_pow: fp,
        state: Phase::Start,
        emitted: Ghost(Seq::empty()),
    };
    proof {
        assert(it@.tested =~= init_view(shift as nat, range as nat).tested);
        assert(it@ =~= init_view(shift as nat, range as nat));
        crate::model::lemma_init_inv(shift as nat, range as nat);
    }
    it
}

/// Ranges a sequencer can be constructed from.
pub trait RlpIterator {
    /// The range's lower bound: the first value the sequencer produces.
    spec fn rlp_shift(&self) -> nat;

    /// The zero-based inclusive upper offset of the normalized domain, i.e.
    /// the number of values minus one.
    spec fn rlp_range(&self) -> nat;

    /// The range is non-empty, not inverted, and its size fits the machine
    /// word.
    spec fn rlp_valid(&self) -> bool;

    /// Builds a sequencer that produces every value of this range exactly
    /// once.
    fn rlp_iter(&self) -> (it: RlpIter)
        requires
            self.rlp_valid(),
        ensures
            it.wf(),
            it@ == init_view(self.rlp_shift(), self.rlp_range()),
    ;
}

impl RlpIterator for Range<usize> {
    open spec fn rlp_shift(&self) -> nat {
        self.start as nat
    }

    open spec fn rlp_range(&self) -> nat {
        (self.end - self.start - 1) as nat
    }

    open spec fn rlp_valid(&self) -> bool {
        self.start < self.end
    }

    fn rlp_iter(&self) -> (it: RlpIter) {
        let range: usize = self.end - self.start - 1;
        make_iter(self.start, range)
    }
}

impl RlpIterator for RangeInclusive<usize> {
    open spec fn rlp_shift(&self) -> nat {
        self@.start as nat
    }

    open spec fn rlp_range(&self) -> nat {
        (self@.end - self@.start) as nat
    }

    open spec fn rlp_valid(&self) -> bool {
        self@.start <= self@.end && self@.end - self@.start < usize::MAX
    }

    fn rlp_iter(&self) -> (it: RlpIter) {
        let start: usize = *self.start();
        let end: usize = *self.end();
        let range: usize = end - start;
        make_iter(start, range)
    }
}

} // verus!
