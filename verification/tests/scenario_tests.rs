//! End-to-end scenarios: the translated effects are run by a small
//! interpreter that mirrors the runtime model of the generated program
//! (two growable stacks of fixed-width integers, wraparound arithmetic).
use brainflak::ast::{translate, Effect, Expr};
use brainflak::parser::parse;
use brainflak::value::{Value, ValuePart};
use num_bigint::BigInt;

struct Machine {
    cur: Vec<i64>,
    off: Vec<i64>,
    loops_run: usize,
}

fn wrap_const(c: &BigInt) -> i64 {
    let m = BigInt::from(1u8) << 64;
    let r: BigInt = ((c % &m) + &m) % &m;
    let (_, digits) = r.to_u64_digits();
    digits.first().copied().unwrap_or(0) as i64
}

fn eval_value(v: &Value, m: &Machine, regs: &[i64]) -> i64 {
    let mut acc = wrap_const(&v.const_val);
    for (p, coeff) in &v.parts {
        let atom = match p {
            ValuePart::CurStackElem(n) => m.cur[m.cur.len() - 1 - n],
            ValuePart::OffStackElem(n) => m.off[m.off.len() - 1 - n],
            ValuePart::CurStackSize => m.cur.len() as i64,
            ValuePart::OffStackSize => m.off.len() as i64,
            ValuePart::LoopResult(i) => regs[*i],
        };
        acc = acc.wrapping_add(atom.wrapping_mul(*coeff));
    }
    acc
}

fn apply_side(stack: &mut Vec<i64>, pop: usize, temps: Vec<i64>) {
    let base = stack.len();
    for (i, t) in temps.iter().enumerate() {
        let idx = base - pop + i;
        if idx < stack.len() {
            stack[idx] = *t;
        } else {
            stack.resize(idx + 1, 0);
            stack[idx] = *t;
        }
    }
    stack.truncate(base - pop + temps.len());
}

fn run_effects(effects: &[Effect], m: &mut Machine) {
    let mut regs = vec![0i64; effects.len()];
    for (i, e) in effects.iter().enumerate() {
        match e {
            Effect::Stack(b) => {
                // temporaries evaluate against pre-batch memory
                let cur_temps: Vec<i64> =
                    b.cur_push.iter().map(|v| eval_value(v, m, &regs)).collect();
                let off_temps: Vec<i64> =
                    b.off_push.iter().map(|v| eval_value(v, m, &regs)).collect();
                apply_side(&mut m.cur, b.cur_pop, cur_temps);
                apply_side(&mut m.off, b.off_pop, off_temps);
                if b.toggle {
                    std::mem::swap(&mut m.cur, &mut m.off);
                }
            },
            Effect::Loop(sub) => {
                regs[i] = 0;
                while m.cur.last().map_or(false, |t| *t != 0) {
                    let sub_regs = vec![0i64; sub.effects.len()];
                    regs[i] = regs[i].wrapping_add(eval_value(&sub.result, m, &sub_regs));
                    run_effects(&sub.effects, m);
                    m.loops_run += 1;
                }
            },
        }
    }
}

fn run(e: &Expr, inputs: &[i64]) -> Machine {
    let mut m = Machine { cur: inputs.to_vec(), off: Vec::new(), loops_run: 0 };
    run_effects(&e.effects, &mut m);
    m
}

fn printed(m: &Machine) -> Vec<i64> {
    // top to bottom, one value per line
    m.cur.iter().rev().copied().collect()
}

fn compiled(src: &str) -> Expr {
    let mut diags = Vec::new();
    translate(&parse(src, &mut diags).expect("source must parse"))
}

#[test]
fn three_pushed_ones_end_on_the_stack() {
    // push 1 three times, no inputs: final active stack [1,1,1],
    // printed 1,1,1
    let e = compiled("(())(())(())");
    let m = run(&e, &[]);
    assert_eq!(m.cur, vec![1, 1, 1]);
    assert_eq!(printed(&m), vec![1, 1, 1]);
}

#[test]
fn countdown_loop_runs_once_per_initial_value() {
    // loop body replaces the top with top minus one; against an initial
    // stack [3] the guard re-samples the live top, so the loop runs
    // exactly 3 times and leaves [0]
    let e = compiled("{({}[()])}");
    let m = run(&e, &[3]);
    assert_eq!(m.loops_run, 3);
    assert_eq!(m.cur, vec![0]);
    assert_eq!(printed(&m), vec![0]);
}

#[test]
fn double_toggle_keeps_operations_on_original_side() {
    // two toggles cancel inside the batch: the pop still takes from the
    // original active stack and no exchange happens
    let e = compiled("<><>{}");
    let m = run(&e, &[10, 20]);
    assert_eq!(m.cur, vec![10]);
    assert!(m.off.is_empty());
}

#[test]
fn single_toggle_moves_work_to_other_side() {
    // push onto the other stack, then the exchange makes it active
    let e = compiled("<>(())");
    let m = run(&e, &[5]);
    assert_eq!(m.cur, vec![1]);
    assert_eq!(m.off, vec![5]);
}

#[test]
fn pop_and_push_move_a_value() {
    // push(pop + pop): adds the two top values
    let e = compiled("({}{})");
    let m = run(&e, &[7, 4]);
    assert_eq!(m.cur, vec![11]);
}

#[test]
fn size_pushes_the_height() {
    // push the current height twice: [2] then [2, ...]
    let e = compiled("([])([])");
    let m = run(&e, &[9, 9]);
    assert_eq!(m.cur, vec![9, 9, 2, 3]);
}
