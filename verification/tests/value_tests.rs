use brainflak::value::{Value, ValuePart};
use num_bigint::BigInt;

fn assert_canonical(v: &Value) {
    for (i, (p, c)) in v.parts.iter().enumerate() {
        assert_ne!(*c, 0, "zero coefficient survived");
        for (q, _) in v.parts.iter().skip(i + 1) {
            assert_ne!(p, q, "atom appears twice");
        }
    }
}

#[test]
fn add_part_merges_and_cancels() {
    let mut v = Value::zero();
    v.add_part_n(ValuePart::CurStackElem(0), 2);
    v.add_part_n(ValuePart::CurStackSize, 1);
    v.add_part_n(ValuePart::CurStackElem(0), -2);
    assert_canonical(&v);
    assert_eq!(v.parts.len(), 1);
    assert_eq!(v.parts[0], (ValuePart::CurStackSize, 1));
}

#[test]
fn add_part_zero_coefficient_is_dropped() {
    let mut v = Value::zero();
    v.add_part_n(ValuePart::OffStackSize, 0);
    assert!(v.parts.is_empty());
    assert_canonical(&v);
}

#[test]
fn merge_sums_constants_and_terms() {
    let mut a = Value::zero();
    a.add_const(5);
    a.add_part_n(ValuePart::CurStackElem(1), 3);
    a.add_part_n(ValuePart::LoopResult(0), 1);
    let mut b = Value::zero();
    b.add_const(-2);
    b.add_part_n(ValuePart::CurStackElem(1), -3);
    b.add_part_n(ValuePart::OffStackElem(0), 7);
    a.add(&b);
    assert_canonical(&a);
    assert_eq!(a.const_val, BigInt::from(3));
    assert_eq!(a.parts.len(), 2);
    assert!(a.parts.contains(&(ValuePart::LoopResult(0), 1)));
    assert!(a.parts.contains(&(ValuePart::OffStackElem(0), 7)));
}

#[test]
fn canonical_after_many_operations() {
    let mut v = Value::zero();
    for k in 0..10i64 {
        v.add_part_n(ValuePart::CurStackElem((k % 3) as usize), k - 4);
        v.add_const(k as i128);
    }
    let mut w = Value::zero();
    w.add_part_n(ValuePart::CurStackElem(1), 100);
    v.add(&w);
    v.negate();
    assert_canonical(&v);
}

#[test]
fn negate_flips_constant_and_coefficients() {
    let mut v = Value::zero();
    v.add_const(41);
    v.add_const(1);
    v.add_part_n(ValuePart::OffStackSize, -6);
    v.negate();
    assert_eq!(v.const_val, BigInt::from(-42));
    assert_eq!(v.parts, vec![(ValuePart::OffStackSize, 6)]);
}

#[test]
fn constant_folding_is_arbitrary_precision() {
    let mut v = Value::zero();
    v.add_const(i128::MAX);
    v.add_const(i128::MAX);
    assert_eq!(v.const_val, BigInt::from(i128::MAX) * 2);
}
