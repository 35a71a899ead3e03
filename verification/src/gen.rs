//! The code generator: lowers a finished expression into self-contained
//! program text in a conventional systems language, operating over two
//! growable arrays.  Every emitted character is pinned down by the spec
//! functions below.
use vstd::prelude::*;
use vstd::arithmetic::div_mod::{lemma_fundamental_div_mod, lemma_mod_multiples_vanish, lemma_small_mod};
use vstd::string::StringExecFns;
use vstd::seq_lib::lemma_concat_associative;
use crate::value::{Value, ValuePart, GValue};
use crate::ast::{Effect, Expr, GBatch, GEffect, GExpr, effects_view, expr_view, lemma_effects_view_len};
use crate::bigint::{big_view, big_is_negative, big_low_u64};

verus! {

/// The decimal digits.
pub open spec fn digit_seq(d: nat) -> Seq<char> {
    if d == 0 {
        "0"@
    } else if d == 1 {
        "1"@
    } else if d == 2 {
        "2"@
    } else if d == 3 {
        "3"@
    } else if d == 4 {
        "4"@
    } else if d == 5 {
        "5"@
    } else if d == 6 {
        "6"@
    } else if d == 7 {
        "7"@
    } else if d == 8 {
        "8"@
    } else {
        "9"@
    }
}

/// The decimal numeral of a nonnegative integer.
pub open spec fn dec_seq(n: nat) -> Seq<char>
    decreases n,
{
    if n < 10 {
        digit_seq(n)
    } else {
        dec_seq(n / 10) + digit_seq(n % 10)
    }
}

/// The decimal numeral of an integer, minus sign included.
pub open spec fn int_seq(i: int) -> Seq<char> {
    if i < 0 {
        "-"@ + dec_seq((-i) as nat)
    } else {
        dec_seq(i as nat)
    }
}

/// The residue of `c` in `[0, 2^64)`.
pub open spec fn wrap_u64(c: int) -> int {
    c % 0x1_0000_0000_0000_0000
}

/// The fixed-width runtime representative of an arbitrary-precision
/// constant: the value in `[-2^63, 2^63)` congruent to `c` modulo `2^64`.
pub open spec fn wrap_i64(c: int) -> int {
    if wrap_u64(c) >= 0x8000_0000_0000_0000 {
        wrap_u64(c) - 0x1_0000_0000_0000_0000
    } else {
        wrap_u64(c)
    }
}

/// Emitted form of one atom.
pub open spec fn part_text(p: ValuePart) -> Seq<char> {
    match p {
        ValuePart::CurStackElem(n) => "s[p-"@ + dec_seq(n as nat + 1) + "]"@,
        ValuePart::OffStackElem(n) => "o[d-"@ + dec_seq(n as nat + 1) + "]"@,
        ValuePart::CurStackSize => "p"@,
        ValuePart::OffStackSize => "d"@,
        ValuePart::LoopResult(i) => "r"@ + dec_seq(i as nat),
    }
}

/// Emitted form of one term: its atom, and its coefficient unless that is 1.
pub open spec fn term_text(t: (ValuePart, i64)) -> Seq<char> {
    "+"@ + part_text(t.0) + if t.1 != 1 {
        "*"@ + int_seq(t.1 as int)
    } else {
        Seq::empty()
    }
}

/// Emitted form of the terms of a value, from index `k` on.
pub open spec fn terms_text(s: Seq<(ValuePart, i64)>, k: int) -> Seq<char>
    decreases s.len() - k,
{
    if k < 0 || k >= s.len() {
        Seq::empty()
    } else {
        term_text(s[k]) + terms_text(s, k + 1)
    }
}

/// Emitted form of a whole value: a parenthesized sum whose constant is
/// truncated to the runtime's fixed width exactly here.
pub open spec fn value_text(v: GValue) -> Seq<char> {
    "("@ + int_seq(wrap_i64(v.c)) + terms_text(v.parts, 0) + ")"@
}

/// Append one decimal digit.
fn push_digit(out: &mut String, d: u8)
    requires
        d < 10,
    ensures
        final(out)@ == old(out)@ + digit_seq(d as nat),
{
    if d == 0 {
        out.append("0");
    } else if d == 1 {
        out.append("1");
    } else if d == 2 {
        out.append("2");
    } else if d == 3 {
        out.append("3");
    } else if d == 4 {
        out.append("4");
    } else if d == 5 {
        out.append("5");
    } else if d == 6 {
        out.append("6");
    } else if d == 7 {
        out.append("7");
    } else if d == 8 {
        out.append("8");
    } else {
        out.append("9");
    }
}

/// Append the decimal numeral of `n`.
fn push_dec(out: &mut String, n: u128)
    ensures
        final(out)@ == old(out)@ + dec_seq(n as nat),
    decreases n,
{
    if n < 10 {
        push_digit(out, n as u8);
    } else {
        push_dec(out, n / 10);
        push_digit(out, (n % 10) as u8);
        proof {
            assert(old(out)@ + dec_seq((n / 10) as nat) + digit_seq((n % 10) as nat) =~= old(out)@
                + (dec_seq((n / 10) as nat) + digit_seq((n % 10) as nat)));
        }
    }
}

/// Append the decimal numeral of `i`, minus sign included.
fn push_int(out: &mut String, i: i128)
    requires
        i != i128::MIN,
    ensures
        final(out)@ == old(out)@ + int_seq(i as int),
{
    if i < 0 {
        out.append("-");
        push_dec(out, (-i) as u128);
        proof {
            assert(old(out)@ + "-"@ + dec_seq((-i) as nat) =~= old(out)@ + ("-"@ + dec_seq(
                (-i) as nat,
            )));
        }
    } else {
        push_dec(out, i as u128);
    }
}

/// Append the fixed-width runtime representative of the constant of a
/// value, read off the arbitrary-precision integer's sign and lowest
/// base-2^64 digit.
fn push_wrapped_const(out: &mut String, c: &num_bigint::BigInt)
    ensures
        final(out)@ == old(out)@ + int_seq(wrap_i64(big_view(*c))),
{
    let neg = big_is_negative(c);
    let low = big_low_u64(c);
    let w: u64 = if neg {
        (0u64).wrapping_sub(low)
    } else {
        low
    };
    proof {
        lemma_wrap_u64(big_view(*c), low as int, neg);
        assert(w as int == wrap_u64(big_view(*c)));
    }
    let signed_neg: bool = w >= 0x8000_0000_0000_0000u64;
    if signed_neg {
        // the representative is negative: its magnitude is 2^64 - w
        out.append("-");
        let mag: u64 = (0u64).wrapping_sub(w);
        push_dec(out, mag as u128);
        proof {
            assert(mag as int == -wrap_i64(big_view(*c)));
            assert(old(out)@ + "-"@ + dec_seq(mag as nat) =~= old(out)@ + ("-"@ + dec_seq(
                mag as nat,
            )));
        }
    } else {
        push_dec(out, w as u128);
    }
}

/// The residue computation behind `push_wrapped_const`: `low` is the
/// residue of the magnitude, and two's-complement negation turns it into
/// the residue of the value itself.
proof fn lemma_wrap_u64(c: int, low: int, neg: bool)
    requires
        low == vstd::math::abs(c) % 0x1_0000_0000_0000_0000,
        neg == (c < 0),
    ensures
        (if neg {
            (0x1_0000_0000_0000_0000 - low) % 0x1_0000_0000_0000_0000
        } else {
            low
        }) == wrap_u64(c),
{
    if neg {
        let q = (-c) / 0x1_0000_0000_0000_0000;
        let r = (-c) % 0x1_0000_0000_0000_0000;
        lemma_fundamental_div_mod(-c, 0x1_0000_0000_0000_0000);
        assert(-c == 0x1_0000_0000_0000_0000 * q + r);
        if r == 0 {
            assert(c == 0x1_0000_0000_0000_0000 * (-q) + 0) by (nonlinear_arith)
                requires
                    -c == 0x1_0000_0000_0000_0000 * q,
            ;
            lemma_mod_multiples_vanish(-q, 0, 0x1_0000_0000_0000_0000);
            lemma_small_mod(0nat, 0x1_0000_0000_0000_0000 as nat);
        } else {
            assert(c == 0x1_0000_0000_0000_0000 * (-q - 1) + (0x1_0000_0000_0000_0000 - r)) by (nonlinear_arith)
                requires
                    -c == 0x1_0000_0000_0000_0000 * q + r,
            ;
            lemma_mod_multiples_vanish(-q - 1, 0x1_0000_0000_0000_0000 - r, 0x1_0000_0000_0000_0000);
            lemma_small_mod((0x1_0000_0000_0000_0000 - r) as nat, 0x1_0000_0000_0000_0000 as nat);
        }
    }
}

/// Append the emitted form of one atom.
fn push_part(out: &mut String, p: ValuePart)
    ensures
        final(out)@ == old(out)@ + part_text(p),
{
    match p {
        ValuePart::CurStackElem(n) => {
            out.append("s[p-");
            push_dec(out, n as u128 + 1);
            out.append("]");
            proof {
                assert(out@ =~= old(out)@ + part_text(p));
            }
        },
        ValuePart::OffStackElem(n) => {
            out.append("o[d-");
            push_dec(out, n as u128 + 1);
            out.append("]");
            proof {
                assert(out@ =~= old(out)@ + part_text(p));
            }
        },
        ValuePart::CurStackSize => {
            out.append("p");
        },
        ValuePart::OffStackSize => {
            out.append("d");
        },
        ValuePart::LoopResult(i) => {
            out.append("r");
            push_dec(out, i as u128);
            proof {
                assert(out@ =~= old(out)@ + part_text(p));
            }
        },
    }
}

/// Append the emitted form of a whole value.
#[verifier::loop_isolation(false)]
pub fn compile_value(out: &mut String, v: &Value)
    ensures
        final(out)@ == old(out)@ + value_text(v@),
{
    out.append("(");
    push_wrapped_const(out, &v.const_val);
    let ghost head = old(out)@ + "("@ + int_seq(wrap_i64(v@.c));
    proof {
        assert(out@ =~= head);
    }
    let mut k: usize = 0;
    while k < v.parts.len()
        invariant
            k <= v.parts.len(),
            out@ + terms_text(v.parts@, k as int) == head + terms_text(v.parts@, 0),
        decreases v.parts.len() - k,
    {
        let ghost pre = out@;
        let (p, c) = v.parts[k];
        out.append("+");
        push_part(out, p);
        if c != 1 {
            out.append("*");
            push_int(out, c as i128);
        }
        proof {
            assert(out@ =~= pre + term_text(v.parts@[k as int]));
            assert(pre + term_text(v.parts@[k as int]) + terms_text(v.parts@, k as int + 1) =~= pre
                + terms_text(v.parts@, k as int));
        }
        k += 1;
    }
    proof {
        assert(terms_text(v.parts@, v.parts@.len() as int) =~= Seq::<char>::empty());
        assert(out@ =~= head + terms_text(v.parts@, 0));
    }
    out.append(")");
    proof {
        assert(out@ =~= old(out)@ + value_text(v@));
    }
}


/// The capacity reached by doubling `cap` until it is at least `need`:
/// what the emitted growth loop leaves in the capacity variable.
pub open spec fn grown_cap(cap: nat, need: nat) -> nat
    decreases vstd::math::clip(need - cap),
{
    if cap == 0 {
        need
    } else if cap >= need {
        cap
    } else {
        grown_cap((cap * 2) as nat, need)
    }
}

/// Growth sufficiency: doubling until sufficient always reaches `need`,
/// and never shrinks.
pub proof fn lemma_grown_cap_ge(cap: nat, need: nat)
    ensures
        grown_cap(cap, need) >= need,
        grown_cap(cap, need) >= cap,
    decreases vstd::math::clip(need - cap),
{
    if cap != 0 && cap < need {
        lemma_grown_cap_ge((cap * 2) as nat, need);
    }
}

/// Growth sufficiency for a stack side: when the net offset `k` pushes the
/// new top past the old capacity, the capacity after the emitted doubling
/// loop is at least the old top plus `k`.
pub proof fn lemma_growth_sufficiency(cap: nat, top: nat, k: nat)
    ensures
        grown_cap(cap, top + k) >= top + k,
{
    lemma_grown_cap_ge(cap, top + k);
}

/// The names of a side's variables: its array, its top index and its
/// capacity.
pub open spec fn side_names(is_off: bool) -> (Seq<char>, Seq<char>, Seq<char>) {
    if !is_off {
        ("s"@, "p"@, "c"@)
    } else {
        ("o"@, "d"@, "v"@)
    }
}

/// Emitted form of one side's growth check: double the capacity until the
/// new top fits, then reallocate the backing array.
pub open spec fn grow_text(is_off: bool, offset: nat) -> Seq<char> {
    let (st, tp, cp) = side_names(is_off);
    "if("@ + tp + "+"@ + dec_seq(offset) + ">"@ + cp + "){while("@ + tp + "+"@ + dec_seq(offset)
        + ">"@ + cp + ")"@ + cp + "*=2;"@ + st + "=realloc("@ + st + ","@ + cp + "*sizeof(l));}"@
}

/// Emitted form of one temporary holding a queued value, evaluated against
/// pre-batch memory.
pub open spec fn temp_text(i: nat, idx: nat, v: GValue) -> Seq<char> {
    "l t"@ + dec_seq(i) + "_"@ + dec_seq(idx) + "="@ + value_text(v) + ";"@
}

/// Emitted temporaries for the queued values from index `i` on.
pub open spec fn temps_text(q: Seq<GValue>, idx: nat, i: int) -> Seq<char>
    decreases q.len() - i,
{
    if i < 0 || i >= q.len() {
        Seq::empty()
    } else {
        temp_text(i as nat, idx, q[i]) + temps_text(q, idx, i + 1)
    }
}

/// Emitted store of temporary `i` into its target slot at
/// `top - popCount + i`.
pub open spec fn write_text(i: nat, pop: nat, idx: nat, is_off: bool) -> Seq<char> {
    let (st, tp, cp) = side_names(is_off);
    st + "["@ + tp + "+"@ + int_seq(i - pop) + "]=t"@ + dec_seq(i) + "_"@ + dec_seq(idx) + ";"@
}

/// Emitted stores for temporaries `i` to `n`.
pub open spec fn writes_text(n: int, pop: nat, idx: nat, is_off: bool, i: int) -> Seq<char>
    decreases n - i,
{
    if i < 0 || i >= n {
        Seq::empty()
    } else {
        write_text(i as nat, pop, idx, is_off) + writes_text(n, pop, idx, is_off, i + 1)
    }
}

/// Emitted form of one side of a batch: growth check if the side grows,
/// then every queued value into a fresh temporary, then all stores.
pub open spec fn side_text(pop: nat, q: Seq<GValue>, is_off: bool, idx: nat) -> Seq<char> {
    (if q.len() > pop {
        grow_text(is_off, (q.len() - pop) as nat)
    } else {
        Seq::empty()
    }) + temps_text(q, idx, 0) + writes_text(q.len() as int, pop, idx, is_off, 0)
}

/// Emitted exchange of the two sides' top, capacity and array variables.
pub open spec fn swap_text() -> Seq<char> {
    "{size_t t=p;p=d;d=t;size_t g=c;c=v;v=g;l*h=s;s=o;o=h;}"@
}

/// Emitted pointer adjustments and, for a toggled batch, exactly one
/// exchange of the two sides, however many toggles the batch absorbed.
pub open spec fn adjust_text(b: GBatch) -> Seq<char> {
    let p_off = b.cur_push.len() - b.cur_pop;
    let d_off = b.off_push.len() - b.off_pop;
    (if p_off != 0 {
        "p+="@ + int_seq(p_off) + ";"@
    } else {
        Seq::empty()
    }) + (if d_off != 0 {
        "d+="@ + int_seq(d_off) + ";"@
    } else {
        Seq::empty()
    }) + (if b.toggle {
        swap_text()
    } else {
        Seq::empty()
    })
}

/// Emitted form of one batch: the two sides independently, then the
/// pointer adjustments and at most one exchange.
pub open spec fn stack_effect_text(b: GBatch, k: nat) -> Seq<char> {
    side_text(b.cur_pop, b.cur_push, false, 2 * k) + side_text(b.off_pop, b.off_push, true, 2 * k + 1)
        + adjust_text(b)
}

/// Emitted form of a loop effect at log index `k`: one accumulator,
/// initialized to zero, a guard on the live top of the active stack, the
/// body's result added each iteration, then the body's own effects.
pub open spec fn loop_text(ge: GExpr, k: nat) -> Seq<char>
    decreases ge, 0nat, 0nat,
{
    "l r"@ + dec_seq(k) + "=0;while(p&&s[p-1]){r"@ + dec_seq(k) + "+="@ + value_text(ge.result)
        + ";"@ + effects_text(ge.effects, 0) + "}"@
}

/// Emitted form of an effect log from index `k` on.
pub open spec fn effects_text(s: Seq<GEffect>, k: int) -> Seq<char>
    decreases s, 1nat, s.len() - k,
{
    if k < 0 || k >= s.len() {
        Seq::empty()
    } else {
        (match s[k] {
            GEffect::Stack(b) => stack_effect_text(b, k as nat),
            GEffect::Loop(ge) => loop_text(ge, k as nat),
        }) + effects_text(s, k + 1)
    }
}

/// The fixed preamble: both arrays at the initial capacity, the active
/// stack seeded from the numeric arguments in order.
pub open spec fn header_text() -> Seq<char> {
    "#include<stdlib.h>\n#include<string.h>\n#include<stdio.h>\ntypedef long long l;int main(int argc,char**argv){l*s=malloc(1024*sizeof(l)),*o=malloc(1024*sizeof(l));size_t p=argc-1,d=0;size_t c=1024,v=1024;for(int i=1;i<argc;i++)s[i-1]=atoll(argv[i]);"@
}

/// The fixed epilogue: print the final active stack top to bottom, one
/// value per line, and nothing at all for an empty stack.
pub open spec fn footer_text() -> Seq<char> {
    "for(size_t i=p;i>0;i--)printf(\"%lld\\n\",s[i-1]);}"@
}

/// The whole program's text.
pub open spec fn program_text(ge: GExpr) -> Seq<char> {
    header_text() + effects_text(ge.effects, 0) + footer_text()
}

/// Emit one side of one batch.
#[verifier::loop_isolation(false)]
#[verifier::rlimit(100)]
fn compile_single_stack_effect(out: &mut String, pop: usize, push: &Vec<Value>, is_off: bool, idx: u128)
    ensures
        final(out)@ == old(out)@ + side_text(
            pop as nat,
            push@.map(|i: int, v: Value| v@),
            is_off,
            idx as nat,
        ),
{
    let ghost q = push@.map(|i: int, v: Value| v@);
    let ghost base = out@;
    let stack: &str = if !is_off { "s" } else { "o" };
    let top: &str = if !is_off { "p" } else { "d" };
    let cap: &str = if !is_off { "c" } else { "v" };
    let offset: i128 = push.len() as i128 - pop as i128;
    if offset > 0 {
        let ghost mut t: Seq<char> = Seq::empty();
        proof {
            assert(base + t =~= base);
        }
        out.append("if(");
        proof {
            lemma_concat_associative(base, t, "if("@);
            t = t + "if("@;
        }
        out.append(top);
        proof {
            lemma_concat_associative(base, t, top@);
            t = t + top@;
        }
        out.append("+");
        proof {
            lemma_concat_associative(base, t, "+"@);
            t = t + "+"@;
        }
        push_dec(out, offset as u128);
        proof {
            lemma_concat_associative(base, t, dec_seq((offset as u128) as nat));
            t = t + dec_seq((offset as u128) as nat);
        }
        out.append(">");
        proof {
            lemma_concat_associative(base, t, ">"@);
            t = t + ">"@;
        }
        out.append(cap);
        proof {
            lemma_concat_associative(base, t, cap@);
            t = t + cap@;
        }
        out.append("){while(");
        proof {
            lemma_concat_associative(base, t, "){while("@);
            t = t + "){while("@;
        }
        out.append(top);
        proof {
            lemma_concat_associative(base, t, top@);
            t = t + top@;
        }
        out.append("+");
        proof {
            lemma_concat_associative(base, t, "+"@);
            t = t + "+"@;
        }
        push_dec(out, offset as u128);
        proof {
            lemma_concat_associative(base, t, dec_seq((offset as u128) as nat));
            t = t + dec_seq((offset as u128) as nat);
        }
        out.append(">");
        proof {
            lemma_concat_associative(base, t, ">"@);
            t = t + ">"@;
        }
        out.append(cap);
        proof {
            lemma_concat_associative(base, t, cap@);
            t = t + cap@;
        }
        out.append(")");
        proof {
            lemma_concat_associative(base, t, ")"@);
            t = t + ")"@;
        }
        out.append(cap);
        proof {
            lemma_concat_associative(base, t, cap@);
            t = t + cap@;
        }
        out.append("*=2;");
        proof {
            lemma_concat_associative(base, t, "*=2;"@);
            t = t + "*=2;"@;
        }
        out.append(stack);
        proof {
            lemma_concat_associative(base, t, stack@);
            t = t + stack@;
        }
        out.append("=realloc(");
        proof {
            lemma_concat_associative(base, t, "=realloc("@);
            t = t + "=realloc("@;
        }
        out.append(stack);
        proof {
            lemma_concat_associative(base, t, stack@);
            t = t + stack@;
        }
        out.append(",");
        proof {
            lemma_concat_associative(base, t, ","@);
            t = t + ","@;
        }
        out.append(cap);
        proof {
            lemma_concat_associative(base, t, cap@);
            t = t + cap@;
        }
        out.append("*sizeof(l));}");
        proof {
            lemma_concat_associative(base, t, "*sizeof(l));}"@);
            t = t + "*sizeof(l));}"@;
        }
        proof {
            assert(Seq::<char>::empty() + "if("@ =~= "if("@);
            assert(t == Seq::<char>::empty() + "if("@ + top@ + "+"@ + dec_seq(
                (offset as u128) as nat,
            ) + ">"@ + cap@ + "){while("@ + top@ + "+"@ + dec_seq((offset as u128) as nat) + ">"@
                + cap@ + ")"@ + cap@ + "*=2;"@ + stack@ + "=realloc("@ + stack@ + ","@ + cap@
                + "*sizeof(l));}"@);
            assert("if("@ + top@ =~= Seq::<char>::empty() + "if("@ + top@);
            assert(t == grow_text(is_off, (q.len() - pop) as nat));
        }
    }
    let ghost grown = out@;
    proof {
        assert(grown == base + (if q.len() > pop {
            grow_text(is_off, (q.len() - pop) as nat)
        } else {
            Seq::<char>::empty()
        }) || (q.len() <= pop && grown == base));
    }
    let mut i: usize = 0;
    while i < push.len()
        invariant
            i <= push.len(),
            out@ + temps_text(q, idx as nat, i as int) == grown + temps_text(q, idx as nat, 0),
        decreases push.len() - i,
    {
        let ghost pre = out@;
        let ghost mut t: Seq<char> = Seq::empty();
        out.append("l t");
        proof {
            assert(pre + "l t"@ =~= pre + (Seq::<char>::empty() + "l t"@));
            t = Seq::<char>::empty() + "l t"@;
        }
        push_dec(out, i as u128);
        proof {
            lemma_concat_associative(pre, t, dec_seq(i as nat));
            t = t + dec_seq(i as nat);
        }
        out.append("_");
        proof {
            lemma_concat_associative(pre, t, "_"@);
            t = t + "_"@;
        }
        push_dec(out, idx);
        proof {
            lemma_concat_associative(pre, t, dec_seq(idx as nat));
            t = t + dec_seq(idx as nat);
        }
        out.append("=");
        proof {
            lemma_concat_associative(pre, t, "="@);
            t = t + "="@;
        }
        compile_value(out, &push[i]);
        proof {
            lemma_concat_associative(pre, t, value_text(q[i as int]));
            t = t + value_text(q[i as int]);
        }
        out.append(";");
        proof {
            lemma_concat_associative(pre, t, ";"@);
            t = t + ";"@;
        }
        proof {
            assert(Seq::<char>::empty() + "l t"@ =~= "l t"@);
            assert(t == temp_text(i as nat, idx as nat, q[i as int]));
            lemma_concat_associative(pre, temp_text(i as nat, idx as nat, q[i as int]), temps_text(
                q,
                idx as nat,
                i as int + 1,
            ));
            assert(temp_text(i as nat, idx as nat, q[i as int]) + temps_text(q, idx as nat, i as int + 1)
                =~= temps_text(q, idx as nat, i as int));
        }
        i += 1;
    }
    proof {
        assert(temps_text(q, idx as nat, q.len() as int) =~= Seq::<char>::empty());
        assert(out@ + temps_text(q, idx as nat, q.len() as int) =~= out@);
    }
    let ghost mid = out@;
    let mut i: usize = 0;
    while i < push.len()
        invariant
            i <= push.len(),
            out@ + writes_text(q.len() as int, pop as nat, idx as nat, is_off, i as int) == mid
                + writes_text(q.len() as int, pop as nat, idx as nat, is_off, 0),
        decreases push.len() - i,
    {
        let ghost pre = out@;
        let ghost mut t: Seq<char> = Seq::empty();
        out.append(stack);
        proof {
            assert(pre + stack@ =~= pre + (Seq::<char>::empty() + stack@));
            t = Seq::<char>::empty() + stack@;
        }
        out.append("[");
        proof {
            lemma_concat_associative(pre, t, "["@);
            t = t + "["@;
        }
        out.append(top);
        proof {
            lemma_concat_associative(pre, t, top@);
            t = t + top@;
        }
        out.append("+");
        proof {
            lemma_concat_associative(pre, t, "+"@);
            t = t + "+"@;
        }
        push_int(out, i as i128 - pop as i128);
        proof {
            lemma_concat_associative(pre, t, int_seq(i as int - pop as int));
            t = t + int_seq(i as int - pop as int);
        }
        out.append("]=t");
        proof {
            lemma_concat_associative(pre, t, "]=t"@);
            t = t + "]=t"@;
        }
        push_dec(out, i as u128);
        proof {
            lemma_concat_associative(pre, t, dec_seq(i as nat));
            t = t + dec_seq(i as nat);
        }
        out.append("_");
        proof {
            lemma_concat_associative(pre, t, "_"@);
            t = t + "_"@;
        }
        push_dec(out, idx);
        proof {
            lemma_concat_associative(pre, t, dec_seq(idx as nat));
            t = t + dec_seq(idx as nat);
        }
        out.append(";");
        proof {
            lemma_concat_associative(pre, t, ";"@);
            t = t + ";"@;
        }
        proof {
            assert(Seq::<char>::empty() + stack@ =~= stack@);
            assert(t == write_text(i as nat, pop as nat, idx as nat, is_off));
            lemma_concat_associative(
                pre,
                write_text(i as nat, pop as nat, idx as nat, is_off),
                writes_text(q.len() as int, pop as nat, idx as nat, is_off, i as int + 1),
            );
            assert(write_text(i as nat, pop as nat, idx as nat, is_off) + writes_text(
                q.len() as int,
                pop as nat,
                idx as nat,
                is_off,
                i as int + 1,
            ) =~= writes_text(q.len() as int, pop as nat, idx as nat, is_off, i as int));
        }
        i += 1;
    }
    proof {
        assert(writes_text(q.len() as int, pop as nat, idx as nat, is_off, q.len() as int) =~= Seq::<
            char,
        >::empty());
        assert(out@ + writes_text(q.len() as int, pop as nat, idx as nat, is_off, q.len() as int)
            =~= out@);
        lemma_concat_associative(
            base,
            (if q.len() > pop {
                grow_text(is_off, (q.len() - pop) as nat)
            } else {
                Seq::<char>::empty()
            }),
            temps_text(q, idx as nat, 0),
        );
        lemma_concat_associative(
            base,
            (if q.len() > pop {
                grow_text(is_off, (q.len() - pop) as nat)
            } else {
                Seq::<char>::empty()
            }) + temps_text(q, idx as nat, 0),
            writes_text(q.len() as int, pop as nat, idx as nat, is_off, 0),
        );
        if q.len() <= pop {
            assert(base + Seq::<char>::empty() =~= base);
        }
        assert(out@ == base + side_text(pop as nat, q, is_off, idx as nat));
    }
}

/// Emit a whole effect log: each batch's two sides, pointer adjustments
/// and possible exchange, and each loop effect with its nested scope.
#[verifier::loop_isolation(false)]
#[verifier::rlimit(100)]
pub fn compile_effects(out: &mut String, effects: &Vec<Effect>)
    ensures
        final(out)@ == old(out)@ + effects_text(effects_view(effects@), 0),
    decreases effects@,
{
    let ghost gv = effects_view(effects@);
    proof {
        lemma_effects_view_len(effects@, 0);
    }
    let mut i: usize = 0;
    while i < effects.len()
        invariant
            i <= effects.len(),
            out@ + effects_text(gv, i as int) == old(out)@ + effects_text(gv, 0),
        decreases effects.len() - i,
    {
        let ghost pre = out@;
        match &effects[i] {
            Effect::Stack(se) => {
                let ghost b = se@;
                compile_single_stack_effect(out, se.cur_pop, &se.cur_push, false, (i as u128) * 2);
                let ghost mut t: Seq<char> = side_text(b.cur_pop, b.cur_push, false, 2 * (i as nat));
                compile_single_stack_effect(
                    out,
                    se.off_pop,
                    &se.off_push,
                    true,
                    (i as u128) * 2 + 1,
                );
                proof {
                    lemma_concat_associative(
                        pre,
                        t,
                        side_text(b.off_pop, b.off_push, true, 2 * (i as nat) + 1),
                    );
                    t = t + side_text(b.off_pop, b.off_push, true, 2 * (i as nat) + 1);
                }
                let p_off: i128 = se.cur_push.len() as i128 - se.cur_pop as i128;
                let d_off: i128 = se.off_push.len() as i128 - se.off_pop as i128;
                if p_off != 0 {
                    let ghost pre2 = out@;
                    let ghost mut u: Seq<char> = Seq::empty();
                    out.append("p+=");
                    proof {
                        assert(pre2 + "p+="@ =~= pre2 + (Seq::<char>::empty() + "p+="@));
                        u = Seq::<char>::empty() + "p+="@;
                    }
                    push_int(out, p_off);
                    proof {
                        lemma_concat_associative(pre2, u, int_seq(p_off as int));
                        u = u + int_seq(p_off as int);
                    }
                    out.append(";");
                    proof {
                        lemma_concat_associative(pre2, u, ";"@);
                        u = u + ";"@;
                        assert(Seq::<char>::empty() + "p+="@ =~= "p+="@);
                        assert(u == "p+="@ + int_seq(b.cur_push.len() - b.cur_pop) + ";"@);
                        lemma_concat_associative(pre, t, u);
                        t = t + u;
                    }
                } else {
                    proof {
                        assert(t + Seq::<char>::empty() =~= t);
                        t = t + Seq::<char>::empty();
                    }
                }
                if d_off != 0 {
                    let ghost pre2 = out@;
                    let ghost mut u: Seq<char> = Seq::empty();
                    out.append("d+=");
                    proof {
                        assert(pre2 + "d+="@ =~= pre2 + (Seq::<char>::empty() + "d+="@));
                        u = Seq::<char>::empty() + "d+="@;
                    }
                    push_int(out, d_off);
                    proof {
                        lemma_concat_associative(pre2, u, int_seq(d_off as int));
                        u = u + int_seq(d_off as int);
                    }
                    out.append(";");
                    proof {
                        lemma_concat_associative(pre2, u, ";"@);
                        u = u + ";"@;
                        assert(Seq::<char>::empty() + "d+="@ =~= "d+="@);
                        assert(u == "d+="@ + int_seq(b.off_push.len() - b.off_pop) + ";"@);
                        lemma_concat_associative(pre, t, u);
                        t = t + u;
                    }
                } else {
                    proof {
                        assert(t + Seq::<char>::empty() =~= t);
                        t = t + Seq::<char>::empty();
                    }
                }
                if se.toggle {
                    out.append("{size_t t=p;p=d;d=t;size_t g=c;c=v;v=g;l*h=s;s=o;o=h;}");
                    proof {
                        lemma_concat_associative(pre, t, swap_text());
                        t = t + swap_text();
                    }
                } else {
                    proof {
                        assert(t + Seq::<char>::empty() =~= t);
                        t = t + Seq::<char>::empty();
                    }
                }
                proof {
                    lemma_concat_associative(
                        side_text(b.cur_pop, b.cur_push, false, 2 * (i as nat)) + side_text(
                            b.off_pop,
                            b.off_push,
                            true,
                            2 * (i as nat) + 1,
                        ),
                        (if b.cur_push.len() - b.cur_pop != 0 {
                            "p+="@ + int_seq(b.cur_push.len() - b.cur_pop) + ";"@
                        } else {
                            Seq::<char>::empty()
                        }),
                        (if b.off_push.len() - b.off_pop != 0 {
                            "d+="@ + int_seq(b.off_push.len() - b.off_pop) + ";"@
                        } else {
                            Seq::<char>::empty()
                        }),
                    );
                    assert(gv[i as int] == GEffect::Stack(b));
                    assert(t == stack_effect_text(b, i as nat));
                    lemma_concat_associative(pre, t, effects_text(gv, i as int + 1));
                }
            },
            Effect::Loop(ex) => {
                let ghost ge = expr_view(*ex);
                let ghost mut t: Seq<char> = Seq::empty();
                out.append("l r");
                proof {
                    assert(pre + "l r"@ =~= pre + (Seq::<char>::empty() + "l r"@));
                    t = Seq::<char>::empty() + "l r"@;
                }
                push_dec(out, i as u128);
                proof {
                    lemma_concat_associative(pre, t, dec_seq(i as nat));
                    t = t + dec_seq(i as nat);
                }
                out.append("=0;while(p&&s[p-1]){r");
                proof {
                    lemma_concat_associative(pre, t, "=0;while(p&&s[p-1]){r"@);
                    t = t + "=0;while(p&&s[p-1]){r"@;
                }
                push_dec(out, i as u128);
                proof {
                    lemma_concat_associative(pre, t, dec_seq(i as nat));
                    t = t + dec_seq(i as nat);
                }
                out.append("+=");
                proof {
                    lemma_concat_associative(pre, t, "+="@);
                    t = t + "+="@;
                }
                compile_value(out, &ex.result);
                proof {
                    lemma_concat_associative(pre, t, value_text(ge.result));
                    t = t + value_text(ge.result);
                }
                out.append(";");
                proof {
                    lemma_concat_associative(pre, t, ";"@);
                    t = t + ";"@;
                }
                compile_effects(out, &ex.effects);
                proof {
                    lemma_concat_associative(pre, t, effects_text(ge.effects, 0));
                    t = t + effects_text(ge.effects, 0);
                }
                out.append("}");
                proof {
                    lemma_concat_associative(pre, t, "}"@);
                    t = t + "}"@;
                }
                proof {
                    assert(Seq::<char>::empty() + "l r"@ =~= "l r"@);
                    assert(gv[i as int] == GEffect::Loop(ge));
                    assert(t == loop_text(ge, i as nat));
                    lemma_concat_associative(pre, t, effects_text(gv, i as int + 1));
                }
            },
        }
        i += 1;
    }
    proof {
        assert(effects_text(gv, effects@.len() as int) =~= Seq::<char>::empty());
        assert(out@ + effects_text(gv, effects@.len() as int) =~= out@);
    }
}

/// Emit the whole program: preamble, every effect in order, epilogue.
pub fn compile(e: &Expr) -> (out: String)
    ensures
        out@ == program_text(expr_view(*e)),
{
    let mut out = String::new();
    out.append("#include<stdlib.h>\n#include<string.h>\n#include<stdio.h>\ntypedef long long l;int main(int argc,char**argv){l*s=malloc(1024*sizeof(l)),*o=malloc(1024*sizeof(l));size_t p=argc-1,d=0;size_t c=1024,v=1024;for(int i=1;i<argc;i++)s[i-1]=atoll(argv[i]);");
    compile_effects(&mut out, &e.effects);
    out.append("for(size_t i=p;i>0;i--)printf(\"%lld\\n\",s[i-1]);}");
    proof {
        assert(out@ =~= program_text(expr_view(*e)));
    }
    out
}

} // verus!
