//! Proved laws of the translator: what a push/pop pair, a loop boundary
//! and a run of toggles do to a scope's state.
use vstd::prelude::*;
use vstd::wrapping::i64_specs;
use crate::value::{
    GValue, gv_zero, gv_add, gv_add_const, gv_add_part, gv_negate, wf_parts, spec_neg_parts,
    lemma_add_part_wf, lemma_merge_parts_wf,
};
use crate::ast::{
    Inst, GState, GEffect, GExpr, GBatch, gb_new, gb_is_empty, g_flush, g_active_queue, g_active_pops,
    g_set_active_queue, g_set_active_pops, g_toggle, g_elem_atom, g_size_atom, t_seq, t_full,
};
use crate::value::ValuePart;

verus! {

/// Push/pop cancellation: translating `Push(x)` immediately followed by
/// `Pop` leaves the scope's log and batch exactly as translating `x` alone
/// leaves them - the queued push never reaches the log - while the running
/// sum gains `x`'s result twice: once from the push, once from the pop
/// reading it back.  In particular, when `x` itself does not touch the
/// batch, the pair is a net no-op on the batch.
pub proof fn lemma_push_pop_cancellation(x: Vec<Inst>, st: GState, acc: GValue)
    ensures
        ({
            let (st1, r) = t_seq(x@, 0, st, gv_zero());
            t_seq(seq![Inst::Push(x), Inst::Pop], 0, st, acc) == (
                st1,
                gv_add(gv_add(acc, r), r),
            )
        }),
{
    let s = seq![Inst::Push(x), Inst::Pop];
    let (st1, r) = t_seq(x@, 0, st, gv_zero());
    let q1 = g_active_queue(st1.batch);
    let st2 = GState { log: st1.log, batch: g_set_active_queue(st1.batch, q1.push(r)) };
    assert(s[0] == Inst::Push(x));
    assert(s[1] == Inst::Pop);
    assert(t_seq(s, 0, st, acc) == t_seq(s, 1, st2, gv_add(acc, r)));
    let b2 = st2.batch;
    assert(g_active_queue(b2) == q1.push(r));
    assert(g_active_queue(b2).len() > 0);
    assert(g_active_queue(b2).last() == r);
    let st3 = GState { log: st2.log, batch: g_set_active_queue(b2, g_active_queue(b2).drop_last()) };
    assert(t_seq(s, 1, st2, gv_add(acc, r)) == t_seq(s, 2, st3, gv_add(gv_add(acc, r), r)));
    assert(q1.push(r).drop_last() =~= q1);
    assert(st3.batch == g_set_active_queue(st1.batch, q1));
    assert(st3.batch == st1.batch);
    assert(st3 == st1);
    assert(t_seq(s, 2, st3, gv_add(gv_add(acc, r), r)) == (st3, gv_add(gv_add(acc, r), r)));
}

/// The special case of cancellation for a group that itself leaves the
/// scope untouched: the pair `Push(x); Pop` is then a net no-op on the
/// batch and the log, while the running sum still gains `x`'s result
/// twice.
pub proof fn lemma_push_pop_no_op(x: Vec<Inst>, st: GState, acc: GValue)
    requires
        t_seq(x@, 0, st, gv_zero()).0 == st,
    ensures
        ({
            let r = t_seq(x@, 0, st, gv_zero()).1;
            t_seq(seq![Inst::Push(x), Inst::Pop], 0, st, acc) == (st, gv_add(gv_add(acc, r), r))
        }),
{
    lemma_push_pop_cancellation(x, st, acc);
}

/// Loop-triggered flush: translating `Push(a); Loop(b)` places the batch
/// that holds `a`'s queued push into the log strictly before the loop
/// effect for `b`, and the batch open immediately after the `Loop` is
/// empty.
pub proof fn lemma_loop_flush(a: Vec<Inst>, b: Vec<Inst>, st: GState, acc: GValue)
    ensures
        ({
            let (st1, r) = t_seq(a@, 0, st, gv_zero());
            let pushed = g_set_active_queue(st1.batch, g_active_queue(st1.batch).push(r));
            let (st2, v) = t_seq(seq![Inst::Push(a), Inst::Loop(b)], 0, st, acc);
            st2.log == st1.log.push(GEffect::Stack(pushed)).push(GEffect::Loop(t_full(b@)))
                && st2.batch == gb_new()
        }),
{
    let s = seq![Inst::Push(a), Inst::Loop(b)];
    let (st1, r) = t_seq(a@, 0, st, gv_zero());
    let q1 = g_active_queue(st1.batch);
    let pushed = g_set_active_queue(st1.batch, q1.push(r));
    let stp = GState { log: st1.log, batch: pushed };
    assert(s[0] == Inst::Push(a));
    assert(s[1] == Inst::Loop(b));
    assert(t_seq(s, 0, st, acc) == t_seq(s, 1, stp, gv_add(acc, r)));
    assert(g_active_queue(pushed).len() > 0);
    assert(!gb_is_empty(pushed));
    let stf = g_flush(stp);
    assert(stf.log == st1.log.push(GEffect::Stack(pushed)));
    assert(stf.batch == gb_new());
    let ge = t_full(b@);
    let st2 = GState { log: stf.log.push(GEffect::Loop(ge)), batch: stf.batch };
    let acc1 = gv_add_part(
        gv_add(acc, r),
        ValuePart::LoopResult((st2.log.len() - 1) as usize),
    );
    assert(t_seq(s, 1, stp, gv_add(acc, r)) == t_seq(s, 2, st2, acc1));
    assert(t_seq(s, 2, st2, acc1) == (st2, acc1));
}

/// Whether a group holds no `Loop` instruction anywhere, nested groups
/// included.
pub open spec fn loop_free(s: Seq<Inst>, k: int) -> bool
    decreases s, 0nat, s.len() - k,
{
    if k < 0 || k >= s.len() {
        true
    } else {
        (match s[k] {
            Inst::Loop(_) => false,
            Inst::Push(a) => loop_free(a@, 0),
            Inst::Negate(a) => loop_free(a@, 0),
            Inst::Exec(a) => loop_free(a@, 0),
            _ => true,
        }) && loop_free(s, k + 1)
    }
}

/// Number of `ToggleStack` instructions in a group, nested groups
/// included.
pub open spec fn toggle_count(s: Seq<Inst>, k: int) -> nat
    decreases s, 0nat, s.len() - k,
{
    if k < 0 || k >= s.len() {
        0
    } else {
        (match s[k] {
            Inst::Toggle => 1nat,
            Inst::Push(a) => toggle_count(a@, 0),
            Inst::Negate(a) => toggle_count(a@, 0),
            Inst::Exec(a) => toggle_count(a@, 0),
            _ => 0nat,
        }) + toggle_count(s, k + 1)
    }
}

/// Toggle parity: while no flush intervenes (no `Loop` is translated),
/// the batch's toggled flag after a group is its flag before, flipped
/// exactly when the number of `ToggleStack` instructions translated is
/// odd; the log does not move.
pub proof fn lemma_toggle_parity(s: Seq<Inst>, k: int, st: GState, acc: GValue)
    requires
        0 <= k <= s.len(),
        loop_free(s, k),
    ensures
        ({
            let (st1, v) = t_seq(s, k, st, acc);
            st1.log == st.log && st1.batch.toggle == (if toggle_count(s, k) % 2 == 0 {
                st.batch.toggle
            } else {
                !st.batch.toggle
            })
        }),
    decreases s, 1nat, s.len() - k,
{
    if k < s.len() {
        let b = st.batch;
        match s[k] {
            Inst::One => {
                lemma_toggle_parity(s, k + 1, st, gv_add_const(acc, 1));
            },
            Inst::Size => {
                let acc1 = gv_add_part(acc, g_size_atom(b));
                let acc2 = gv_add_const(acc1, g_active_queue(b).len() - g_active_pops(b));
                lemma_toggle_parity(s, k + 1, st, acc2);
            },
            Inst::Pop => {
                if g_active_queue(b).len() == 0 {
                    let acc1 = gv_add_part(acc, g_elem_atom(b, g_active_pops(b) as usize));
                    let st1 = GState {
                        log: st.log,
                        batch: g_set_active_pops(b, g_active_pops(b) + 1),
                    };
                    lemma_toggle_parity(s, k + 1, st1, acc1);
                } else {
                    let v = g_active_queue(b).last();
                    let st1 = GState {
                        log: st.log,
                        batch: g_set_active_queue(b, g_active_queue(b).drop_last()),
                    };
                    lemma_toggle_parity(s, k + 1, st1, gv_add(acc, v));
                }
            },
            Inst::Toggle => {
                lemma_toggle_parity(s, k + 1, GState { log: st.log, batch: g_toggle(b) }, acc);
            },
            Inst::Push(a) => {
                lemma_toggle_parity(a@, 0, st, gv_zero());
                let (st1, r) = t_seq(a@, 0, st, gv_zero());
                let st2 = GState {
                    log: st1.log,
                    batch: g_set_active_queue(st1.batch, g_active_queue(st1.batch).push(r)),
                };
                lemma_toggle_parity(s, k + 1, st2, gv_add(acc, r));
            },
            Inst::Negate(a) => {
                lemma_toggle_parity(a@, 0, st, gv_zero());
                let (st1, r) = t_seq(a@, 0, st, gv_zero());
                lemma_toggle_parity(s, k + 1, st1, gv_add(acc, gv_negate(r)));
            },
            Inst::Loop(_) => {
                assert(false);
            },
            Inst::Exec(a) => {
                lemma_toggle_parity(a@, 0, st, gv_zero());
                let (st1, r) = t_seq(a@, 0, st, gv_zero());
                lemma_toggle_parity(s, k + 1, st1, acc);
            },
        }
    }
}


/// A symbolic value in canonical form: no atom twice, no zero
/// coefficient.
pub open spec fn gv_wf(v: GValue) -> bool {
    wf_parts(v.parts)
}

/// A batch whose queued values are all canonical.
pub open spec fn gb_wf(b: GBatch) -> bool {
    &&& forall|i: int| 0 <= i < b.cur_push.len() ==> gv_wf(#[trigger] b.cur_push[i])
    &&& forall|i: int| 0 <= i < b.off_push.len() ==> gv_wf(#[trigger] b.off_push[i])
}

pub open spec fn geffect_wf(e: GEffect) -> bool
    decreases e, 0nat, 0nat,
{
    match e {
        GEffect::Stack(b) => gb_wf(b),
        GEffect::Loop(x) => gexpr_wf(x),
    }
}

pub open spec fn geffects_wf(s: Seq<GEffect>, k: int) -> bool
    decreases s, 1nat, s.len() - k,
{
    if k < 0 || k >= s.len() {
        true
    } else {
        geffect_wf(s[k]) && geffects_wf(s, k + 1)
    }
}

/// A finished scope all of whose symbolic values are canonical.
pub open spec fn gexpr_wf(x: GExpr) -> bool
    decreases x, 2nat, 0nat,
{
    geffects_wf(x.effects, 0) && gv_wf(x.result)
}

proof fn lemma_geffects_wf_push(s: Seq<GEffect>, k: int, e: GEffect)
    requires
        0 <= k <= s.len(),
        geffects_wf(s, k),
        geffect_wf(e),
    ensures
        geffects_wf(s.push(e), k),
    decreases s.len() - k,
{
    if k < s.len() {
        assert(s.push(e)[k] == s[k]);
        lemma_geffects_wf_push(s, k + 1, e);
        assert(geffects_wf(s.push(e), k + 1));
    } else {
        assert(s.push(e)[k] == e);
        assert(geffects_wf(s.push(e), k + 1));
    }
}

proof fn lemma_neg_parts_wf(v: GValue)
    requires
        gv_wf(v),
    ensures
        gv_wf(gv_negate(v)),
{
    let r = spec_neg_parts(v.parts);
    assert forall|i: int| 0 <= i < r.len() implies (#[trigger] r[i]).1 != 0 by {
        assert(r[i] == (v.parts[i].0, i64_specs::wrapping_sub(0i64, v.parts[i].1)));
        assert(v.parts[i].1 != 0);
    }
    assert forall|a: int, b: int| 0 <= a < b < r.len() implies (#[trigger] r[a]).0 != (
    #[trigger] r[b]).0 by {
        assert(r[a].0 == v.parts[a].0);
        assert(r[b].0 == v.parts[b].0);
    }
}

/// Canonical form throughout translation: starting from a canonical sum,
/// a canonical batch and a canonical log, everything the translator
/// leaves behind is canonical, whatever the instructions merged into
/// them.
pub proof fn lemma_t_seq_canonical(s: Seq<Inst>, k: int, st: GState, acc: GValue)
    requires
        0 <= k <= s.len(),
        gb_wf(st.batch),
        gv_wf(acc),
        geffects_wf(st.log, 0),
    ensures
        ({
            let (st1, v) = t_seq(s, k, st, acc);
            gb_wf(st1.batch) && gv_wf(v) && geffects_wf(st1.log, 0)
        }),
    decreases s, 0nat, s.len() - k,
{
    if k < s.len() {
        let b = st.batch;
        match s[k] {
            Inst::One => {
                lemma_t_seq_canonical(s, k + 1, st, gv_add_const(acc, 1));
            },
            Inst::Size => {
                let acc1 = gv_add_part(acc, g_size_atom(b));
                lemma_add_part_wf(acc.parts, g_size_atom(b), 1);
                let acc2 = gv_add_const(acc1, g_active_queue(b).len() - g_active_pops(b));
                lemma_t_seq_canonical(s, k + 1, st, acc2);
            },
            Inst::Pop => {
                if g_active_queue(b).len() == 0 {
                    let acc1 = gv_add_part(acc, g_elem_atom(b, g_active_pops(b) as usize));
                    lemma_add_part_wf(acc.parts, g_elem_atom(b, g_active_pops(b) as usize), 1);
                    let st1 = GState {
                        log: st.log,
                        batch: g_set_active_pops(b, g_active_pops(b) + 1),
                    };
                    lemma_t_seq_canonical(s, k + 1, st1, acc1);
                } else {
                    let v = g_active_queue(b).last();
                    lemma_merge_parts_wf(acc.parts, v.parts);
                    let q1 = g_active_queue(b).drop_last();
                    assert(forall|i: int| 0 <= i < q1.len() ==> #[trigger] q1[i] == g_active_queue(
                        b,
                    )[i]);
                    let st1 = GState { log: st.log, batch: g_set_active_queue(b, q1) };
                    lemma_t_seq_canonical(s, k + 1, st1, gv_add(acc, v));
                }
            },
            Inst::Toggle => {
                lemma_t_seq_canonical(s, k + 1, GState { log: st.log, batch: g_toggle(b) }, acc);
            },
            Inst::Push(a) => {
                lemma_t_seq_canonical(a@, 0, st, gv_zero());
                let (st1, r) = t_seq(a@, 0, st, gv_zero());
                let q1 = g_active_queue(st1.batch).push(r);
                assert(forall|i: int|
                    0 <= i < q1.len() - 1 ==> #[trigger] q1[i] == g_active_queue(st1.batch)[i]);
                assert(q1.last() == r);
                let st2 = GState { log: st1.log, batch: g_set_active_queue(st1.batch, q1) };
                lemma_merge_parts_wf(acc.parts, r.parts);
                lemma_t_seq_canonical(s, k + 1, st2, gv_add(acc, r));
            },
            Inst::Negate(a) => {
                lemma_t_seq_canonical(a@, 0, st, gv_zero());
                let (st1, r) = t_seq(a@, 0, st, gv_zero());
                lemma_merge_parts_wf(acc.parts, gv_negate(r).parts);
                lemma_t_seq_canonical(s, k + 1, st1, gv_add(acc, gv_negate(r)));
            },
            Inst::Loop(a) => {
                let st1 = g_flush(st);
                if !gb_is_empty(st.batch) {
                    lemma_geffects_wf_push(st.log, 0, GEffect::Stack(st.batch));
                }
                let ge = t_full(a@);
                lemma_t_full_canonical(a@);
                lemma_geffects_wf_push(st1.log, 0, GEffect::Loop(ge));
                let st2 = GState { log: st1.log.push(GEffect::Loop(ge)), batch: st1.batch };
                let atom = ValuePart::LoopResult((st2.log.len() - 1) as usize);
                lemma_add_part_wf(acc.parts, atom, 1);
                lemma_t_seq_canonical(s, k + 1, st2, gv_add_part(acc, atom));
            },
            Inst::Exec(a) => {
                lemma_t_seq_canonical(a@, 0, st, gv_zero());
                let (st1, r) = t_seq(a@, 0, st, gv_zero());
                lemma_t_seq_canonical(s, k + 1, st1, acc);
            },
        }
    }
}

/// Canonical form of a whole translated scope: every symbolic value in
/// the finished expression - the overall result and every queued push in
/// every batch, at every nesting depth - has no atom twice and no zero
/// coefficient.
pub proof fn lemma_t_full_canonical(s: Seq<Inst>)
    ensures
        gexpr_wf(t_full(s)),
    decreases s, 1nat, 0nat,
{
    let st0 = GState { log: Seq::empty(), batch: gb_new() };
    lemma_t_seq_canonical(s, 0, st0, gv_zero());
    let (st, v) = t_seq(s, 0, st0, gv_zero());
    if !gb_is_empty(st.batch) {
        lemma_geffects_wf_push(st.log, 0, GEffect::Stack(st.batch));
    }
}

} // verus!
