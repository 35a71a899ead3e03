//! The instruction tree and the symbolic translator.  The translator walks
//! the tree left to right, keeps one open stack-effect batch and one effect
//! log per scope, and folds every result into a canonical linear expression.
use vstd::prelude::*;
use crate::value::{
    Value, ValuePart, GValue, gv_zero, gv_add, gv_add_const, gv_add_part, gv_negate,
};

verus! {

/// The four nilad instructions and the four compound bracket forms of the
/// source language.  A compound form carries the ordered group of
/// instructions between its brackets.
#[derive(Debug)]
pub enum Inst {
    One,
    Size,
    Pop,
    Toggle,
    Push(Vec<Inst>),
    Negate(Vec<Inst>),
    Loop(Vec<Inst>),
    Exec(Vec<Inst>),
}

/// An ordered group of instructions.
pub type Ast = Vec<Inst>;

/// Number of instruction nodes in a group, nested groups included.
pub open spec fn ast_size(s: Seq<Inst>) -> nat
    decreases s, 0nat, s.len(),
{
    if s.len() == 0 {
        0
    } else {
        inst_size(s[0]) + ast_size(s.drop_first())
    }
}

/// Number of instruction nodes in one instruction, nested groups included.
pub open spec fn inst_size(i: Inst) -> nat
    decreases i, 1nat, 0nat,
{
    match i {
        Inst::One | Inst::Size | Inst::Pop | Inst::Toggle => 1,
        Inst::Push(a) => 1 + ast_size(a@),
        Inst::Negate(a) => 1 + ast_size(a@),
        Inst::Loop(a) => 1 + ast_size(a@),
        Inst::Exec(a) => 1 + ast_size(a@),
    }
}

/// One batch of coalesced, not yet materialized stack mutations: how many
/// slots each side pops below its batch-entry top, which symbolic values
/// each side pushes, and whether the two sides end up exchanged.
pub struct StackEffect {
    pub cur_pop: usize,
    pub cur_push: Vec<Value>,
    pub off_pop: usize,
    pub off_push: Vec<Value>,
    pub toggle: bool,
}

/// One emitted effect: a materialized batch, or a whole loop with its own
/// nested expression.
pub enum Effect {
    Stack(StackEffect),
    Loop(Expr),
}

/// A finished scope: its ordered effect log and its overall symbolic
/// result.
pub struct Expr {
    pub effects: Vec<Effect>,
    pub result: Value,
}

/// Mathematical content of a batch.
pub ghost struct GBatch {
    pub cur_pop: nat,
    pub cur_push: Seq<GValue>,
    pub off_pop: nat,
    pub off_push: Seq<GValue>,
    pub toggle: bool,
}

/// Mathematical content of an emitted effect.
#[verifier::ext_equal]
pub ghost enum GEffect {
    Stack(GBatch),
    Loop(GExpr),
}

/// Mathematical content of a finished scope.
#[verifier::ext_equal]
pub ghost struct GExpr {
    pub effects: Seq<GEffect>,
    pub result: GValue,
}

impl View for StackEffect {
    type V = GBatch;

    open spec fn view(&self) -> GBatch {
        GBatch {
            cur_pop: self.cur_pop as nat,
            cur_push: self.cur_push@.map(|i: int, v: Value| v@),
            off_pop: self.off_pop as nat,
            off_push: self.off_push@.map(|i: int, v: Value| v@),
            toggle: self.toggle,
        }
    }
}

pub open spec fn effect_view(e: Effect) -> GEffect
    decreases e, 0nat, 0nat,
{
    match e {
        Effect::Stack(s) => GEffect::Stack(s@),
        Effect::Loop(x) => GEffect::Loop(expr_view(x)),
    }
}

pub open spec fn effects_view_from(s: Seq<Effect>, k: int) -> Seq<GEffect>
    decreases s, 1nat, s.len() - k,
{
    if k < 0 || k >= s.len() {
        Seq::empty()
    } else {
        seq![effect_view(s[k])] + effects_view_from(s, k + 1)
    }
}

pub open spec fn effects_view(s: Seq<Effect>) -> Seq<GEffect>
    decreases s, 3nat, 0nat,
{
    effects_view_from(s, 0)
}

pub open spec fn expr_view(x: Expr) -> GExpr
    decreases x, 4nat, 0nat,
{
    GExpr { effects: effects_view(x.effects@), result: x.result@ }
}

pub proof fn lemma_effects_view_len(s: Seq<Effect>, k: int)
    requires
        0 <= k <= s.len(),
    ensures
        effects_view_from(s, k).len() == s.len() - k,
        forall|j: int|
            k <= j < s.len() ==> effects_view_from(s, k)[j - k] == effect_view(#[trigger] s[j]),
    decreases s.len() - k,
{
    if k < s.len() {
        lemma_effects_view_len(s, k + 1);
    }
}

/// Appending one effect appends its view.
pub proof fn lemma_effects_view_push(s: Seq<Effect>, e: Effect)
    ensures
        effects_view(s.push(e)) == effects_view(s).push(effect_view(e)),
{
    lemma_effects_view_len(s, 0);
    lemma_effects_view_len(s.push(e), 0);
    assert forall|j: int| 0 <= j < s.len() + 1 implies effects_view(s.push(e))[j] == effects_view(
        s,
    ).push(effect_view(e))[j] by {
        assert(effects_view_from(s.push(e), 0)[j] == effect_view(s.push(e)[j]));
        if j < s.len() {
            assert(s.push(e)[j] == s[j]);
            assert(effects_view_from(s, 0)[j] == effect_view(s[j]));
        }
    }
    assert(effects_view(s.push(e)) =~= effects_view(s).push(effect_view(e)));
}

/// The fresh, empty batch.
pub open spec fn gb_new() -> GBatch {
    GBatch { cur_pop: 0, cur_push: Seq::empty(), off_pop: 0, off_push: Seq::empty(), toggle: false }
}

/// A batch is empty when it holds no pop, no queued push and no pending
/// exchange; only nonempty batches are ever emitted.
pub open spec fn gb_is_empty(b: GBatch) -> bool {
    b.cur_pop == 0 && b.off_pop == 0 && b.cur_push.len() == 0 && b.off_push.len() == 0
        && !b.toggle
}

/// Pop counter of the side the batch currently addresses.
pub open spec fn g_active_pops(b: GBatch) -> nat {
    if !b.toggle {
        b.cur_pop
    } else {
        b.off_pop
    }
}

/// Push queue of the side the batch currently addresses.
pub open spec fn g_active_queue(b: GBatch) -> Seq<GValue> {
    if !b.toggle {
        b.cur_push
    } else {
        b.off_push
    }
}

pub open spec fn g_set_active_pops(b: GBatch, n: nat) -> GBatch {
    if !b.toggle {
        GBatch { cur_pop: n, cur_push: b.cur_push, off_pop: b.off_pop, off_push: b.off_push, toggle: b.toggle }
    } else {
        GBatch { cur_pop: b.cur_pop, cur_push: b.cur_push, off_pop: n, off_push: b.off_push, toggle: b.toggle }
    }
}

pub open spec fn g_set_active_queue(b: GBatch, q: Seq<GValue>) -> GBatch {
    if !b.toggle {
        GBatch { cur_pop: b.cur_pop, cur_push: q, off_pop: b.off_pop, off_push: b.off_push, toggle: b.toggle }
    } else {
        GBatch { cur_pop: b.cur_pop, cur_push: b.cur_push, off_pop: b.off_pop, off_push: q, toggle: b.toggle }
    }
}

pub open spec fn g_toggle(b: GBatch) -> GBatch {
    GBatch { cur_pop: b.cur_pop, cur_push: b.cur_push, off_pop: b.off_pop, off_push: b.off_push, toggle: !b.toggle }
}

/// The stack-slot atom of the side the batch currently addresses.
pub open spec fn g_elem_atom(b: GBatch, t: usize) -> ValuePart {
    if !b.toggle {
        ValuePart::CurStackElem(t)
    } else {
        ValuePart::OffStackElem(t)
    }
}

/// The stack-height atom of the side the batch currently addresses.
pub open spec fn g_size_atom(b: GBatch) -> ValuePart {
    if !b.toggle {
        ValuePart::CurStackSize
    } else {
        ValuePart::OffStackSize
    }
}

/// A scope's translation state: the effect log emitted so far and the one
/// open batch.
pub ghost struct GState {
    pub log: Seq<GEffect>,
    pub batch: GBatch,
}

/// Flushing the open batch: a nonempty batch is appended to the log and
/// replaced by a fresh empty one; an empty batch is simply dropped.
pub open spec fn g_flush(st: GState) -> GState {
    GState {
        log: if gb_is_empty(st.batch) {
            st.log
        } else {
            st.log.push(GEffect::Stack(st.batch))
        },
        batch: gb_new(),
    }
}

/// The symbolic translator, one instruction at a time, from instruction
/// `k` of group `s` on.  `st` is the scope's state, `acc` the running sum
/// of the group's result; the pair returned is the state and the sum after
/// the whole remainder of the group.
pub open spec fn t_seq(s: Seq<Inst>, k: int, st: GState, acc: GValue) -> (GState, GValue)
    decreases s, 3nat, s.len() - k,
{
    if k < 0 || k >= s.len() {
        (st, acc)
    } else {
        let b = st.batch;
        match s[k] {
            Inst::One => t_seq(s, k + 1, st, gv_add_const(acc, 1)),
            Inst::Size => {
                let acc1 = gv_add_part(acc, g_size_atom(b));
                let acc2 = gv_add_const(
                    acc1,
                    g_active_queue(b).len() - g_active_pops(b),
                );
                t_seq(s, k + 1, st, acc2)
            },
            Inst::Pop => {
                if g_active_queue(b).len() == 0 {
                    let acc1 = gv_add_part(acc, g_elem_atom(b, g_active_pops(b) as usize));
                    let st1 = GState {
                        log: st.log,
                        batch: g_set_active_pops(b, g_active_pops(b) + 1),
                    };
                    t_seq(s, k + 1, st1, acc1)
                } else {
                    let v = g_active_queue(b).last();
                    let st1 = GState {
                        log: st.log,
                        batch: g_set_active_queue(b, g_active_queue(b).drop_last()),
                    };
                    t_seq(s, k + 1, st1, gv_add(acc, v))
                }
            },
            Inst::Toggle => t_seq(s, k + 1, GState { log: st.log, batch: g_toggle(b) }, acc),
            Inst::Push(a) => {
                let (st1, r) = t_seq(a@, 0, st, gv_zero());
                let st2 = GState {
                    log: st1.log,
                    batch: g_set_active_queue(
                        st1.batch,
                        g_active_queue(st1.batch).push(r),
                    ),
                };
                t_seq(s, k + 1, st2, gv_add(acc, r))
            },
            Inst::Negate(a) => {
                let (st1, r) = t_seq(a@, 0, st, gv_zero());
                t_seq(s, k + 1, st1, gv_add(acc, gv_negate(r)))
            },
            Inst::Loop(a) => {
                let st1 = g_flush(st);
                let ge = t_full(a@);
                let st2 = GState { log: st1.log.push(GEffect::Loop(ge)), batch: st1.batch };
                let acc1 = gv_add_part(
                    acc,
                    ValuePart::LoopResult((st2.log.len() - 1) as usize),
                );
                t_seq(s, k + 1, st2, acc1)
            },
            Inst::Exec(a) => {
                let (st1, r) = t_seq(a@, 0, st, gv_zero());
                t_seq(s, k + 1, st1, acc)
            },
        }
    }
}

/// A whole scope: translate the group in a fresh state, then flush
/// whatever batch is still open.
pub open spec fn t_full(s: Seq<Inst>) -> GExpr
    decreases s, 4nat, 0nat,
{
    let (st, v) = t_seq(s, 0, GState { log: Seq::empty(), batch: gb_new() }, gv_zero());
    GExpr { effects: g_flush(st).log, result: v }
}

impl StackEffect {
    /// The fresh, empty batch.
    pub fn new() -> (r: StackEffect)
        ensures
            r@ == gb_new(),
    {
        let r = StackEffect {
            cur_pop: 0,
            cur_push: Vec::new(),
            off_pop: 0,
            off_push: Vec::new(),
            toggle: false,
        };
        proof {
            assert(r@.cur_push =~= gb_new().cur_push);
            assert(r@.off_push =~= gb_new().off_push);
        }
        r
    }

    /// Whether this batch would be dropped rather than emitted.
    pub fn is_empty(&self) -> (r: bool)
        ensures
            r == gb_is_empty(self@),
    {
        self.cur_pop == 0 && self.off_pop == 0 && self.cur_push.is_empty()
            && self.off_push.is_empty() && !self.toggle
    }

    /// Pop counter of the side this batch currently addresses.
    fn active_pops(&self) -> (r: usize)
        ensures
            r as nat == g_active_pops(self@),
    {
        if !self.toggle {
            self.cur_pop
        } else {
            self.off_pop
        }
    }

    /// Length of the push queue of the side this batch currently
    /// addresses.
    fn active_queue_len(&self) -> (r: usize)
        ensures
            r as nat == g_active_queue(self@).len(),
    {
        if !self.toggle {
            self.cur_push.len()
        } else {
            self.off_push.len()
        }
    }

    /// Count one more pop on the side this batch currently addresses.
    fn bump_pops(&mut self)
        requires
            g_active_pops(old(self)@) < usize::MAX,
        ensures
            final(self)@ == g_set_active_pops(old(self)@, g_active_pops(old(self)@) + 1),
    {
        if !self.toggle {
            self.cur_pop = self.cur_pop + 1;
        } else {
            self.off_pop = self.off_pop + 1;
        }
    }

    /// Queue a push on the side this batch currently addresses.
    fn queue_push(&mut self, v: Value)
        ensures
            final(self)@ == g_set_active_queue(old(self)@, g_active_queue(old(self)@).push(v@)),
    {
        if !self.toggle {
            self.cur_push.push(v);
            proof {
                assert(self@.cur_push =~= g_active_queue(old(self)@).push(v@));
            }
        } else {
            self.off_push.push(v);
            proof {
                assert(self@.off_push =~= g_active_queue(old(self)@).push(v@));
            }
        }
    }

    /// Take back the most recently queued push of the side this batch
    /// currently addresses.
    fn unqueue_push(&mut self) -> (r: Value)
        requires
            g_active_queue(old(self)@).len() > 0,
        ensures
            r@ == g_active_queue(old(self)@).last(),
            final(self)@ == g_set_active_queue(old(self)@, g_active_queue(old(self)@).drop_last()),
    {
        let r = if !self.toggle {
            let r = self.cur_push.pop().unwrap();
            proof {
                assert(self@.cur_push =~= g_active_queue(old(self)@).drop_last());
            }
            r
        } else {
            let r = self.off_push.pop().unwrap();
            proof {
                assert(self@.off_push =~= g_active_queue(old(self)@).drop_last());
            }
            r
        };
        r
    }

    /// The stack-slot atom of the side this batch currently addresses.
    fn stack_elem(&self, t: usize) -> (r: ValuePart)
        ensures
            r == g_elem_atom(self@, t),
    {
        if !self.toggle {
            ValuePart::CurStackElem(t)
        } else {
            ValuePart::OffStackElem(t)
        }
    }

    /// The stack-height atom of the side this batch currently addresses.
    fn stack_size(&self) -> (r: ValuePart)
        ensures
            r == g_size_atom(self@),
    {
        if !self.toggle {
            ValuePart::CurStackSize
        } else {
            ValuePart::OffStackSize
        }
    }
}

/// Append a batch to an effect log, unless it is empty.
pub fn push_effect(effects: &mut Vec<Effect>, effect: StackEffect)
    ensures
        effects_view(final(effects)@) == g_flush(
            GState { log: effects_view(old(effects)@), batch: effect@ },
        ).log,
{
    if !effect.is_empty() {
        let ghost s = effects@;
        effects.push(Effect::Stack(effect));
        proof {
            lemma_effects_view_push(s, Effect::Stack(effect));
        }
    }
}

/// Pop counters never grow by more than the number of instructions
/// translated.
proof fn lemma_t_seq_pop_bound(s: Seq<Inst>, k: int, st: GState, acc: GValue)
    requires
        0 <= k <= s.len(),
    ensures
        ({
            let (st1, v) = t_seq(s, k, st, acc);
            st1.batch.cur_pop + st1.batch.off_pop <= st.batch.cur_pop + st.batch.off_pop
                + ast_size(s.skip(k))
        }),
    decreases s, 5nat, s.len() - k,
{
    if k < s.len() {
        assert(s.skip(k).drop_first() =~= s.skip(k + 1));
        assert(s.skip(k)[0] == s[k]);
        assert(ast_size(s.skip(k)) == inst_size(s[k]) + ast_size(s.skip(k + 1)));
        let b = st.batch;
        match s[k] {
            Inst::One => {
                lemma_t_seq_pop_bound(s, k + 1, st, gv_add_const(acc, 1));
            },
            Inst::Size => {
                let acc1 = gv_add_part(acc, g_size_atom(b));
                let acc2 = gv_add_const(acc1, g_active_queue(b).len() - g_active_pops(b));
                lemma_t_seq_pop_bound(s, k + 1, st, acc2);
            },
            Inst::Pop => {
                if g_active_queue(b).len() == 0 {
                    let acc1 = gv_add_part(acc, g_elem_atom(b, g_active_pops(b) as usize));
                    let st1 = GState {
                        log: st.log,
                        batch: g_set_active_pops(b, g_active_pops(b) + 1),
                    };
                    lemma_t_seq_pop_bound(s, k + 1, st1, acc1);
                } else {
                    let v = g_active_queue(b).last();
                    let st1 = GState {
                        log: st.log,
                        batch: g_set_active_queue(b, g_active_queue(b).drop_last()),
                    };
                    lemma_t_seq_pop_bound(s, k + 1, st1, gv_add(acc, v));
                }
            },
            Inst::Toggle => {
                lemma_t_seq_pop_bound(s, k + 1, GState { log: st.log, batch: g_toggle(b) }, acc);
            },
            Inst::Push(a) => {
                lemma_t_seq_pop_bound(a@, 0, st, gv_zero());
                assert(a@.skip(0) =~= a@);
                let (st1, r) = t_seq(a@, 0, st, gv_zero());
                let st2 = GState {
                    log: st1.log,
                    batch: g_set_active_queue(st1.batch, g_active_queue(st1.batch).push(r)),
                };
                lemma_t_seq_pop_bound(s, k + 1, st2, gv_add(acc, r));
            },
            Inst::Negate(a) => {
                lemma_t_seq_pop_bound(a@, 0, st, gv_zero());
                assert(a@.skip(0) =~= a@);
                let (st1, r) = t_seq(a@, 0, st, gv_zero());
                lemma_t_seq_pop_bound(s, k + 1, st1, gv_add(acc, gv_negate(r)));
            },
            Inst::Loop(a) => {
                let st1 = g_flush(st);
                let ge = t_full(a@);
                let st2 = GState { log: st1.log.push(GEffect::Loop(ge)), batch: st1.batch };
                let acc1 = gv_add_part(acc, ValuePart::LoopResult((st2.log.len() - 1) as usize));
                lemma_t_seq_pop_bound(s, k + 1, st2, acc1);
            },
            Inst::Exec(a) => {
                lemma_t_seq_pop_bound(a@, 0, st, gv_zero());
                assert(a@.skip(0) =~= a@);
                let (st1, r) = t_seq(a@, 0, st, gv_zero());
                lemma_t_seq_pop_bound(s, k + 1, st1, acc);
            },
        }
    } else {
        assert(s.skip(k) =~= Seq::<Inst>::empty());
    }
}

/// The translator, from instruction `k` of group `ast` on: mirrors `t_seq`
/// over the live effect log, batch and running sum.
fn translate_from(
    ast: &Vec<Inst>,
    k: usize,
    effects: &mut Vec<Effect>,
    cur: &mut StackEffect,
    result: &mut Value,
)
    requires
        k <= ast.len(),
        old(cur)@.cur_pop + old(cur)@.off_pop + ast_size(ast@.skip(k as int)) <= usize::MAX,
    ensures
        ({
            let (st1, v) = t_seq(
                ast@,
                k as int,
                GState { log: effects_view(old(effects)@), batch: old(cur)@ },
                old(result)@,
            );
            effects_view(final(effects)@) == st1.log && final(cur)@ == st1.batch
                && final(result)@ == v
        }),
    decreases ast@, 6nat, ast@.len() - k,
{
    if k == ast.len() {
        return ;
    }
    let ghost st = GState { log: effects_view(effects@), batch: cur@ };
    proof {
        assert(ast@.skip(k as int).drop_first() =~= ast@.skip(k as int + 1));
        assert(ast@.skip(k as int)[0] == ast@[k as int]);
        assert(ast_size(ast@.skip(k as int)) == inst_size(ast@[k as int]) + ast_size(
            ast@.skip(k as int + 1),
        ));
    }
    match &ast[k] {
        Inst::One => {
            result.add_const(1);
        },
        Inst::Size => {
            let part = cur.stack_size();
            result.add_part(part);
            let n: i128 = cur.active_queue_len() as i128 - cur.active_pops() as i128;
            result.add_const(n);
        },
        Inst::Pop => {
            if cur.active_queue_len() == 0 {
                let p = cur.active_pops();
                let part = cur.stack_elem(p);
                result.add_part(part);
                cur.bump_pops();
            } else {
                let v = cur.unqueue_push();
                result.add(&v);
            }
        },
        Inst::Toggle => {
            cur.toggle = !cur.toggle;
        },
        Inst::Push(a) => {
            let mut r = Value::zero();
            proof {
                lemma_t_seq_pop_bound(a@, 0, st, gv_zero());
                assert(a@.skip(0) =~= a@);
            }
            translate_from(a, 0, effects, cur, &mut r);
            result.add(&r);
            cur.queue_push(r);
        },
        Inst::Negate(a) => {
            let mut r = Value::zero();
            proof {
                lemma_t_seq_pop_bound(a@, 0, st, gv_zero());
                assert(a@.skip(0) =~= a@);
            }
            translate_from(a, 0, effects, cur, &mut r);
            r.negate();
            result.add(&r);
        },
        Inst::Loop(a) => {
            let mut fresh = StackEffect::new();
            core::mem::swap(cur, &mut fresh);
            push_effect(effects, fresh);
            let sub = translate(a);
            let ghost before = effects@;
            effects.push(Effect::Loop(sub));
            proof {
                lemma_effects_view_push(before, Effect::Loop(sub));
            }
            let idx = effects.len() - 1;
            result.add_part(ValuePart::LoopResult(idx));
            proof {
                lemma_effects_view_len(effects@, 0);
            }
        },
        Inst::Exec(a) => {
            let mut r = Value::zero();
            proof {
                lemma_t_seq_pop_bound(a@, 0, st, gv_zero());
                assert(a@.skip(0) =~= a@);
            }
            translate_from(a, 0, effects, cur, &mut r);
        },
    }
    translate_from(ast, k + 1, effects, cur, result);
}

/// Translate a whole program or loop body: a fresh scope whose batch is
/// flushed at the end.  The returned expression is exactly `t_full` of the
/// tree.
pub fn translate(ast: &Vec<Inst>) -> (r: Expr)
    requires
        ast_size(ast@) <= usize::MAX,
    ensures
        expr_view(r) == t_full(ast@),
    decreases ast@, 7nat, 0nat,
{
    let mut effects: Vec<Effect> = Vec::new();
    let mut cur = StackEffect::new();
    let mut result = Value::zero();
    proof {
        assert(ast@.skip(0) =~= ast@);
        assert(effects_view_from(effects@, 0) =~= Seq::<GEffect>::empty());
    }
    translate_from(ast, 0, &mut effects, &mut cur, &mut result);
    push_effect(&mut effects, cur);
    Expr { effects, result }
}

} // verus!
