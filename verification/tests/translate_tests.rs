use brainflak::ast::{translate, Effect, Inst};
use brainflak::value::ValuePart;
use num_bigint::BigInt;

#[test]
fn ones_fold_into_the_constant() {
    let e = translate(&vec![Inst::One, Inst::One, Inst::One]);
    assert!(e.effects.is_empty());
    assert_eq!(e.result.const_val, BigInt::from(3));
    assert!(e.result.parts.is_empty());
}

#[test]
fn push_pop_pair_cancels_symbolically() {
    // Push(1); Pop: the queued push never reaches the log, and the sum
    // holds the pushed value twice.
    let e = translate(&vec![Inst::Push(vec![Inst::One]), Inst::Pop]);
    assert!(e.effects.is_empty());
    assert_eq!(e.result.const_val, BigInt::from(2));
    assert!(e.result.parts.is_empty());
}

#[test]
fn pop_from_real_memory_counts_pops() {
    let e = translate(&vec![Inst::Pop, Inst::Pop]);
    assert_eq!(e.effects.len(), 1);
    match &e.effects[0] {
        Effect::Stack(b) => {
            assert_eq!(b.cur_pop, 2);
            assert!(b.cur_push.is_empty());
            assert_eq!(b.off_pop, 0);
            assert!(!b.toggle);
        },
        _ => panic!("expected a stack effect"),
    }
    assert_eq!(e.result.const_val, BigInt::from(0));
    assert!(e.result.parts.contains(&(ValuePart::CurStackElem(0), 1)));
    assert!(e.result.parts.contains(&(ValuePart::CurStackElem(1), 1)));
}

#[test]
fn loop_flushes_the_open_batch_first() {
    // Push(1); Loop([]): the push's batch lands in the log strictly
    // before the loop effect, and the batch afterwards is empty.
    let e = translate(&vec![Inst::Push(vec![Inst::One]), Inst::Loop(vec![])]);
    assert_eq!(e.effects.len(), 2);
    match &e.effects[0] {
        Effect::Stack(b) => {
            assert_eq!(b.cur_push.len(), 1);
            assert_eq!(b.cur_push[0].const_val, BigInt::from(1));
            assert_eq!(b.cur_pop, 0);
        },
        _ => panic!("the flushed batch must come first"),
    }
    match &e.effects[1] {
        Effect::Loop(sub) => {
            assert!(sub.effects.is_empty());
            assert_eq!(sub.result.const_val, BigInt::from(0));
        },
        _ => panic!("the loop effect must come second"),
    }
    // only the loop effect contributes an atom: its accumulator
    assert_eq!(e.result.const_val, BigInt::from(1));
    assert_eq!(e.result.parts, vec![(ValuePart::LoopResult(1), 1)]);
}

#[test]
fn size_reads_pending_net_offset() {
    // Push(1); Size: the height atom plus the not-yet-flushed offset.
    let e = translate(&vec![Inst::Push(vec![Inst::One]), Inst::Size]);
    assert_eq!(e.result.const_val, BigInt::from(2));
    assert_eq!(e.result.parts, vec![(ValuePart::CurStackSize, 1)]);
}

#[test]
fn toggle_parity_even_addresses_original_side() {
    // Two toggles cancel: the pop addresses the original side and the
    // batch is not marked toggled.
    let e = translate(&vec![Inst::Toggle, Inst::Toggle, Inst::Pop]);
    assert_eq!(e.effects.len(), 1);
    match &e.effects[0] {
        Effect::Stack(b) => {
            assert_eq!(b.cur_pop, 1);
            assert_eq!(b.off_pop, 0);
            assert!(!b.toggle);
        },
        _ => panic!("expected a stack effect"),
    }
    assert_eq!(e.result.parts, vec![(ValuePart::CurStackElem(0), 1)]);
}

#[test]
fn toggle_parity_odd_addresses_other_side() {
    let e = translate(&vec![Inst::Toggle, Inst::Pop]);
    match &e.effects[0] {
        Effect::Stack(b) => {
            assert_eq!(b.cur_pop, 0);
            assert_eq!(b.off_pop, 1);
            assert!(b.toggle);
        },
        _ => panic!("expected a stack effect"),
    }
    assert_eq!(e.result.parts, vec![(ValuePart::OffStackElem(0), 1)]);
}

#[test]
fn negate_subtracts_and_exec_discards() {
    // [()] subtracts one; <()> computes but does not merge.
    let e = translate(&vec![Inst::Negate(vec![Inst::One]), Inst::Exec(vec![Inst::One])]);
    assert!(e.effects.is_empty());
    assert_eq!(e.result.const_val, BigInt::from(-1));
}

#[test]
fn junk_nilads_fold_to_constants_not_pushes() {
    // `(1)` is a nilad with enclosed junk, so it adds one to the running
    // sum; nothing is pushed and no effect is emitted
    let mut diags = Vec::new();
    let tree = brainflak::parser::parse("(1)(1)(1)", &mut diags).unwrap();
    let e = translate(&tree);
    assert!(e.effects.is_empty());
    assert_eq!(e.result.const_val, BigInt::from(3));
}

#[test]
fn push_doubling_grows_constants_exponentially() {
    // Push(x);Pop contributes x twice: nesting doubles the constant.
    let mut tree = vec![Inst::One];
    for _ in 0..80 {
        tree = vec![Inst::Push(tree), Inst::Pop];
    }
    let e = translate(&tree);
    assert!(e.effects.is_empty());
    assert_eq!(e.result.const_val, BigInt::from(1u8) << 80);
}
