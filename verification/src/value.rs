//! The symbolic value model: a canonical linear expression over a small set
//! of atoms, with an arbitrary-precision constant term and fixed-width
//! coefficients.
use vstd::prelude::*;
use vstd::wrapping::i64_specs;
use crate::bigint::{big_view, big_from_i128, big_add_i128, big_add, big_negate};

verus! {

/// A symbolic atom: a slot of the active or the other stack, counted down
/// from the top the side had when the current batch began, one of the two
/// stack heights, or the accumulator of an already emitted loop effect,
/// named by that effect's index in its scope's log.
#[derive(Clone, Copy, Debug, PartialEq, Eq, Structural)]
pub enum ValuePart {
    CurStackElem(usize),
    OffStackElem(usize),
    CurStackSize,
    OffStackSize,
    LoopResult(usize),
}

/// A canonical linear expression: `const_val` plus the sum of
/// `coefficient * atom` over `parts`.  Canonical form: no atom appears
/// twice and no coefficient is zero.
pub struct Value {
    pub const_val: num_bigint::BigInt,
    pub parts: Vec<(ValuePart, i64)>,
}

/// The mathematical content of a `Value`: the exact constant and the
/// ordered list of terms.
pub ghost struct GValue {
    pub c: int,
    pub parts: Seq<(ValuePart, i64)>,
}

impl View for Value {
    type V = GValue;

    open spec fn view(&self) -> GValue {
        GValue { c: big_view(self.const_val), parts: self.parts@ }
    }
}

/// Canonical form of a term list: each atom at most once, every
/// coefficient nonzero.
pub open spec fn wf_parts(s: Seq<(ValuePart, i64)>) -> bool {
    &&& forall|i: int, j: int|
        0 <= i < j < s.len() ==> (#[trigger] s[i]).0 != (#[trigger] s[j]).0
    &&& forall|i: int| 0 <= i < s.len() ==> (#[trigger] s[i]).1 != 0
}

/// Index of the first term carrying atom `p`, or `s.len()` if none does.
pub open spec fn find_part(s: Seq<(ValuePart, i64)>, p: ValuePart) -> int
    decreases s.len(),
{
    if s.len() == 0 {
        0
    } else if s[0].0 == p {
        0
    } else {
        1 + find_part(s.drop_first(), p)
    }
}

/// Merging one atom into a term list: an atom already present has its
/// coefficient summed with fixed-width wraparound, and its entry removed
/// when the sum is zero; an absent atom is appended unless its coefficient
/// is zero.
pub open spec fn spec_add_part(s: Seq<(ValuePart, i64)>, p: ValuePart, n: i64) -> Seq<
    (ValuePart, i64),
> {
    let i = find_part(s, p);
    if i == s.len() {
        if n == 0 {
            s
        } else {
            s.push((p, n))
        }
    } else {
        let c = i64_specs::wrapping_add(s[i].1, n);
        if c == 0 {
            s.update(i, s.last()).drop_last()
        } else {
            s.update(i, (p, c))
        }
    }
}

/// Merging a whole term list into another, atom by atom, left to right.
pub open spec fn spec_merge_parts(
    s: Seq<(ValuePart, i64)>,
    o: Seq<(ValuePart, i64)>,
) -> Seq<(ValuePart, i64)>
    decreases o.len(),
{
    if o.len() == 0 {
        s
    } else {
        spec_merge_parts(spec_add_part(s, o[0].0, o[0].1), o.drop_first())
    }
}

/// Negation of a term list: every coefficient negated with fixed-width
/// wraparound.
pub open spec fn spec_neg_parts(s: Seq<(ValuePart, i64)>) -> Seq<(ValuePart, i64)> {
    s.map(|i: int, pc: (ValuePart, i64)| (pc.0, i64_specs::wrapping_sub(0i64, pc.1)))
}

pub open spec fn gv_zero() -> GValue {
    GValue { c: 0, parts: Seq::empty() }
}

pub open spec fn gv_add_const(a: GValue, n: int) -> GValue {
    GValue { c: a.c + n, parts: a.parts }
}

pub open spec fn gv_add_part(a: GValue, p: ValuePart) -> GValue {
    GValue { c: a.c, parts: spec_add_part(a.parts, p, 1) }
}

pub open spec fn gv_add(a: GValue, b: GValue) -> GValue {
    GValue { c: a.c + b.c, parts: spec_merge_parts(a.parts, b.parts) }
}

pub open spec fn gv_negate(a: GValue) -> GValue {
    GValue { c: -a.c, parts: spec_neg_parts(a.parts) }
}

pub proof fn lemma_find_part(s: Seq<(ValuePart, i64)>, p: ValuePart)
    ensures
        0 <= find_part(s, p) <= s.len(),
        forall|j: int| 0 <= j < find_part(s, p) ==> (#[trigger] s[j]).0 != p,
        find_part(s, p) < s.len() ==> s[find_part(s, p)].0 == p,
    decreases s.len(),
{
    if s.len() != 0 && s[0].0 != p {
        let rest = s.drop_first();
        lemma_find_part(rest, p);
        assert forall|j: int| 0 <= j < find_part(s, p) implies (#[trigger] s[j]).0 != p by {
            if j > 0 {
                assert(s[j] == rest[j - 1]);
            }
        }
    }
}

/// Canonical form is kept by merging a single atom.
pub proof fn lemma_add_part_wf(s: Seq<(ValuePart, i64)>, p: ValuePart, n: i64)
    requires
        wf_parts(s),
    ensures
        wf_parts(spec_add_part(s, p, n)),
{
    lemma_find_part(s, p);
    let i = find_part(s, p);
    let r = spec_add_part(s, p, n);
    if i == s.len() {
        if n != 0 {
            assert forall|a: int, b: int| 0 <= a < b < r.len() implies (#[trigger] r[a]).0 != (
            #[trigger] r[b]).0 by {
                if b == r.len() - 1 {
                    assert(r[a] == s[a]);
                }
            }
        }
    } else {
        let c = i64_specs::wrapping_add(s[i].1, n);
        if c == 0 {
            let t = s.update(i, s.last()).drop_last();
            assert forall|a: int, b: int| 0 <= a < b < t.len() implies (#[trigger] t[a]).0 != (
            #[trigger] t[b]).0 by {
                assert(t[a] == if a == i { s[s.len() - 1] } else { s[a] });
                assert(t[b] == if b == i { s[s.len() - 1] } else { s[b] });
            }
            assert forall|a: int| 0 <= a < t.len() implies (#[trigger] t[a]).1 != 0 by {
                assert(t[a] == if a == i { s[s.len() - 1] } else { s[a] });
            }
        }
    }
}

/// Canonical form is kept by merging a whole term list.
pub proof fn lemma_merge_parts_wf(s: Seq<(ValuePart, i64)>, o: Seq<(ValuePart, i64)>)
    requires
        wf_parts(s),
    ensures
        wf_parts(spec_merge_parts(s, o)),
    decreases o.len(),
{
    if o.len() != 0 {
        lemma_add_part_wf(s, o[0].0, o[0].1);
        lemma_merge_parts_wf(spec_add_part(s, o[0].0, o[0].1), o.drop_first());
    }
}

impl Value {
    /// Canonical form of this value's term list.
    pub open spec fn wf(self) -> bool {
        wf_parts(self.parts@)
    }

    /// The zero expression: constant 0 and no terms.
    pub fn zero() -> (r: Value)
        ensures
            r@ == gv_zero(),
            r.wf(),
    {
        let r = Value { const_val: big_from_i128(0), parts: Vec::new() };
        proof {
            assert(r@.parts =~= gv_zero().parts);
        }
        r
    }

    /// Add an exact integer to the constant term; the terms do not change.
    pub fn add_const(&mut self, n: i128)
        ensures
            final(self)@ == gv_add_const(old(self)@, n as int),
            old(self).wf() ==> final(self).wf(),
    {
        big_add_i128(&mut self.const_val, n);
    }

    /// Merge one atom with coefficient `n` into the term list.
    pub fn add_part_n(&mut self, p: ValuePart, n: i64)
        ensures
            final(self)@.c == old(self)@.c,
            final(self)@.parts == spec_add_part(old(self)@.parts, p, n),
            old(self).wf() ==> final(self).wf(),
    {
        let ghost s = self.parts@;
        proof {
            lemma_find_part(s, p);
            if wf_parts(s) {
                lemma_add_part_wf(s, p, n);
            }
        }
        let mut i: usize = 0;
        while i < self.parts.len()
            invariant
                i <= self.parts.len(),
                s == old(self).parts@,
                self.parts@ == s,
                self.const_val == old(self).const_val,
                forall|j: int| 0 <= j < i ==> (#[trigger] s[j]).0 != p,
            decreases self.parts.len() - i,
        {
            if self.parts[i].0 == p {
                proof {
                    lemma_find_part(s, p);
                    if wf_parts(s) {
                        lemma_add_part_wf(s, p, n);
                    }
                    if find_part(s, p) < i {
                        assert((#[trigger] s[find_part(s, p)]).0 == p);
                        assert(false);
                    }
                    if find_part(s, p) > i {
                        assert(s[i as int].0 != p);
                        assert(false);
                    }
                    assert(find_part(s, p) == i);
                }
                let c = self.parts[i].1.wrapping_add(n);
                if c == 0 {
                    self.parts.swap_remove(i);
                } else {
                    self.parts.set(i, (p, c));
                }
                return ;
            }
            i += 1;
        }
        proof {
            lemma_find_part(s, p);
            assert(find_part(s, p) == s.len());
        }
        if n != 0 {
            self.parts.push((p, n));
        }
    }

    /// Merge one atom with coefficient 1 into the term list.
    pub fn add_part(&mut self, p: ValuePart)
        ensures
            final(self)@ == gv_add_part(old(self)@, p),
            old(self).wf() ==> final(self).wf(),
    {
        self.add_part_n(p, 1);
    }

    /// Flip the sign of the constant exactly and of every coefficient with
    /// fixed-width wraparound.
    pub fn negate(&mut self)
        ensures
            final(self)@ == gv_negate(old(self)@),
            old(self).wf() ==> final(self).wf(),
    {
        big_negate(&mut self.const_val);
        let ghost s = old(self).parts@;
        let mut i: usize = 0;
        while i < self.parts.len()
            invariant
                i <= self.parts.len(),
                self.parts@.len() == s.len(),
                big_view(self.const_val) == -old(self)@.c,
                forall|j: int| i <= j < s.len() ==> #[trigger] self.parts@[j] == s[j],
                forall|j: int|
                    0 <= j < i ==> #[trigger] self.parts@[j] == (
                    s[j].0,
                    i64_specs::wrapping_sub(0i64, s[j].1),
                    ),
            decreases self.parts.len() - i,
        {
            let (p, c) = self.parts[i];
            self.parts.set(i, (p, (0i64).wrapping_sub(c)));
            i += 1;
        }
        proof {
            assert(self.parts@ =~= spec_neg_parts(s));
            if old(self).wf() {
                assert forall|j: int| 0 <= j < self.parts@.len() implies (
                #[trigger] self.parts@[j]).1 != 0 by {
                    assert(s[j].1 != 0);
                }
                assert forall|a: int, b: int|
                    0 <= a < b < self.parts@.len() implies (#[trigger] self.parts@[a]).0 != (
                #[trigger] self.parts@[b]).0 by {
                    assert(s[a].0 != s[b].0);
                }
            }
        }
    }

    /// Merge another value into this one: constants add exactly, term
    /// lists merge atom by atom, left to right.
    pub fn add(&mut self, other: &Value)
        ensures
            final(self)@ == gv_add(old(self)@, other@),
            old(self).wf() ==> final(self).wf(),
    {
        big_add(&mut self.const_val, &other.const_val);
        proof {
            assert(other.parts@.skip(0) =~= other.parts@);
        }
        let mut k: usize = 0;
        while k < other.parts.len()
            invariant
                k <= other.parts.len(),
                self@.c == old(self)@.c + other@.c,
                spec_merge_parts(old(self)@.parts, other.parts@) == spec_merge_parts(
                    self.parts@,
                    other.parts@.skip(k as int),
                ),
                old(self).wf() ==> wf_parts(self.parts@),
            decreases other.parts.len() - k,
        {
            let ghost before = self.parts@;
            let (p, c) = other.parts[k];
            self.add_part_n(p, c);
            proof {
                let rest = other.parts@.skip(k as int);
                assert(rest[0] == other.parts@[k as int]);
                assert(rest.drop_first() =~= other.parts@.skip(k as int + 1));
            }
            k += 1;
        }
        proof {
            assert(other.parts@.skip(other.parts@.len() as int) =~= Seq::<(
                ValuePart,
                i64,
            )>::empty());
        }
    }
}

} // verus!
