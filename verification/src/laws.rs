//! The laws the sequencer obeys, stated over the model and proved once and
//! for all. `RlpIter::next` pins its result and successor state to `step`, and
//! the adapters pin the constructed state to `init_view`, so each law carries
//! over to every executable run.

use crate::model::{
    init_view, inv, range_values, reshift, run_outputs, shift_opt, shift_outputs, shift_seq, step,
    IterView, Phase,
};
use vstd::prelude::*;

verus! {

/// Law: a finished run is complete and duplicate-free — the values produced
/// are exactly the integers of the range, each exactly once.
pub proof fn lemma_run_complete(v: IterView)
    requires
        inv(v),
        v.phase is Finished,
    ensures
        v.emitted.to_set() =~= range_values(v.shift, v.range),
        forall|k1: int, k2: int|
            0 <= k1 < k2 < v.emitted.len() ==> v.emitted[k1] != v.emitted[k2],
{
    assert forall|x: nat| range_values(v.shift, v.range).contains(x) implies v.emitted.contains(
        x,
    ) by {
        let i = x - v.shift;
        assert(v.tested[i]);
        assert(v.emitted.contains((v.shift + i) as nat));
    }
    assert forall|x: nat| v.emitted.contains(x) implies range_values(v.shift, v.range).contains(
        x,
    ) by {
        let k = choose|k: int| 0 <= k < v.emitted.len() && v.emitted[k] == x;
        assert(v.shift <= v.emitted[k] <= v.shift + v.range);
    }
}

/// Law: the first value produced is the range's lower bound.
pub proof fn lemma_first_is_lower(shift: nat, range: nat)
    ensures
        step(init_view(shift, range)).out == Some(shift),
{
}

/// Law: on a range with more than one element, the second value produced is
/// the range's inclusive upper bound.
pub proof fn lemma_second_is_upper(shift: nat, range: nat)
    requires
        1 <= range,
    ensures
        step(step(init_view(shift, range)).iter).out == Some(shift + range),
{
}

/// Law: production is deterministic — the whole output sequence is a function
/// of the constructed state alone, so two sequencers built from the same range
/// produce identical outputs in identical order.
pub proof fn lemma_deterministic(a: IterView, b: IterView, n: nat)
    requires
        a == b,
    ensures
        run_outputs(a, n) == run_outputs(b, n),
{
}

/// A run of `n` pulls yields exactly `n` outcomes.
pub proof fn lemma_run_outputs_len(v: IterView, n: nat)
    ensures
        run_outputs(v, n).len() == n,
    decreases n,
{
    if n > 0 {
        lemma_run_outputs_len(step(v).iter, (n - 1) as nat);
    }
}

/// One pull commutes with translating the whole state by `s`.
proof fn lemma_step_reshift(v: IterView, s: nat)
    requires
        v.shift == 0,
    ensures
        step(reshift(v, s)).iter == reshift(step(v).iter, s),
        step(reshift(v, s)).out == shift_opt(step(v).out, s),
{
    let w = reshift(v, s);
    match v.phase {
        Phase::Start => {
            assert(step(w).iter.emitted =~= reshift(step(v).iter, s).emitted);
            assert(step(w).iter =~= reshift(step(v).iter, s));
        },
        Phase::End => {
            if v.range > 0 {
                assert(step(w).iter.emitted =~= reshift(step(v).iter, s).emitted);
            }
            assert(step(w).iter =~= reshift(step(v).iter, s));
        },
        Phase::Lattice => {
            assert(step(w).iter.emitted =~= reshift(step(v).iter, s).emitted);
            assert(step(w).iter =~= reshift(step(v).iter, s));
        },
        Phase::Finished => {
            assert(step(w).iter =~= reshift(step(v).iter, s));
        },
    }
}

/// A run of `n` pulls commutes with translating the whole state by `s`.
proof fn lemma_run_reshift(v: IterView, s: nat, n: nat)
    requires
        v.shift == 0,
    ensures
        run_outputs(reshift(v, s), n) =~= shift_outputs(run_outputs(v, n), s),
    decreases n,
{
    lemma_run_outputs_len(v, n);
    lemma_run_outputs_len(reshift(v, s), n);
    if n > 0 {
        lemma_step_reshift(v, s);
        lemma_run_reshift(step(v).iter, s, (n - 1) as nat);
        lemma_run_outputs_len(step(v).iter, (n - 1) as nat);
        assert forall|k: int| 0 <= k < n implies run_outputs(reshift(v, s), n)[k] == shift_outputs(
            run_outputs(v, n),
            s,
        )[k] by {
            if k > 0 {
                assert(run_outputs(reshift(v, s), n)[k] == run_outputs(
                    reshift(step(v).iter, s),
                    (n - 1) as nat,
                )[k - 1]);
                assert(run_outputs(v, n)[k] == run_outputs(step(v).iter, (n - 1) as nat)[k - 1]);
            }
        }
    }
}

/// Law: offsetting — the run over a range translated by `shift` is, pull for
/// pull, the run over the zero-based range of the same size with `shift`
/// added to every produced value.
pub proof fn lemma_offset_equivalence(shift: nat, range: nat, n: nat)
    ensures
        run_outputs(init_view(shift, range), n) =~= shift_outputs(
            run_outputs(init_view(0, range), n),
            shift,
        ),
{
    assert(reshift(init_view(0, range), shift) =~= init_view(shift, range));
    lemma_run_reshift(init_view(0, range), shift, n);
}

/// Law: once finished, a sequencer signals end-of-sequence on every further
/// pull.
pub proof fn lemma_finished_stays(v: IterView, n: nat)
    requires
        v.phase is Finished,
    ensures
        forall|k: int| 0 <= k < n ==> #[trigger] run_outputs(v, n)[k] is None,
    decreases n,
{
    lemma_run_outputs_len(v, n);
    if n > 0 {
        lemma_finished_stays(v, (n - 1) as nat);
        lemma_run_outputs_len(v, (n - 1) as nat);
        assert forall|k: int| 0 <= k < n implies #[trigger] run_outputs(v, n)[k] is None by {
            if k > 0 {
                assert(run_outputs(v, n)[k] == run_outputs(v, (n - 1) as nat)[k - 1]);
            }
        }
    }
}

/// Law: a single-element range produces exactly its one value and then
/// signals end-of-sequence on every subsequent pull.
pub proof fn lemma_single_element(shift: nat, n: nat)
    ensures
        n >= 1 ==> run_outputs(init_view(shift, 0), n)[0] == Some(shift),
        forall|k: int| 1 <= k < n ==> #[trigger] run_outputs(init_view(shift, 0), n)[k] is None,
{
    let v0 = init_view(shift, 0);
    let v1 = step(v0).iter;
    let v2 = step(v1).iter;
    lemma_run_outputs_len(v0, n);
    if n >= 1 {
        lemma_run_outputs_len(v1, (n - 1) as nat);
        assert(run_outputs(v0, n)[0] == step(v0).out);
        if n >= 2 {
            lemma_run_outputs_len(v2, (n - 2) as nat);
            lemma_finished_stays(v2, (n - 2) as nat);
            assert(run_outputs(v1, (n - 1) as nat)[0] == step(v1).out);
            assert forall|k: int| 1 <= k < n implies #[trigger] run_outputs(v0, n)[k]
                is None by {
                assert(run_outputs(v0, n)[k] == run_outputs(v1, (n - 1) as nat)[k - 1]);
                if k >= 2 {
                    assert(run_outputs(v1, (n - 1) as nat)[k - 1] == run_outputs(
                        v2,
                        (n - 2) as nat,
                    )[k - 2]);
                }
            }
        }
    }
}

} // verus!
