use asn1_codec::bits::{integer_to_bytes, range_from_len};
use asn1_codec::constraints::{
    Bounded, Constraint, ConstraintDiscriminant, Constraints, Extensible, PermittedAlphabet, Size,
    Value,
};
use asn1_codec::integer::{EffectiveValue, Integer, IntegerType};

#[test]
fn range() {
    let constraints = Bounded::<i128>::new(0, 255);
    assert_eq!(256, constraints.range().unwrap());
}

#[test]
fn range_of_single_and_open() {
    assert_eq!(Bounded::<i128>::single_value(7).range(), Some(1));
    assert_eq!(Bounded::<i128>::start_from(7).range(), None);
    assert_eq!(Bounded::<usize>::Range { start: Some(2), end: Some(5) }.range(), Some(4));
}

#[test]
fn bounded_queries() {
    let b = Bounded::<i128>::new(-5, 10);
    assert!(b.contains(&-5));
    assert!(b.contains(&10));
    assert!(!b.contains(&11));
    assert_eq!(b.as_start(), Some(&-5));
    assert_eq!(b.as_end(), Some(&10));
    assert_eq!(b.minimum(), -5);
    assert_eq!(Bounded::<i128>::up_to(3).minimum(), 0);
    assert_eq!(b.contains_or(&20, "out"), Err("out"));
    assert_eq!(b.contains_or_else(&0, || "never"), Ok(()));
    assert_eq!(b.range_in_bytes(), (true, Some(1)));
    assert_eq!(Bounded::<i128>::new(0, 70000).range_in_bytes(), (false, Some(4)));
    assert_eq!(Bounded::<i128>::Unbounded.range_in_bytes(), (true, None));
}

#[test]
fn in_bound_for_large_values() {
    let huge = Integer::from_signed_bytes(&[0x01, 0, 0, 0, 0, 0, 0, 0, 0, 0, 0, 0, 0, 0, 0, 0, 0]);
    assert!(Bounded::<i128>::start_from(0).in_bound(&huge));
    assert!(!Bounded::<i128>::new(0, 10).in_bound(&huge));
    assert!(Bounded::<i128>::new(0, 10).in_bound(&Integer::from_i64(10)));
}

#[test]
fn constraint_queries() {
    let value = Constraint::Value(Extensible::new(Value::new(Bounded::new(0, 100))));
    let size = Constraint::Size(Extensible::new(Size::fixed(4)).set_extensible(true));
    let alphabet = Constraint::PermittedAlphabet(Extensible::new(PermittedAlphabet::new(vec![97, 98])));
    let cs = Constraints::new(vec![value.clone(), size.clone(), alphabet.clone()]);
    assert_eq!(cs.value().unwrap().constraint.value, Bounded::new(0, 100));
    assert!(cs.size().unwrap().constraint.is_fixed());
    assert_eq!(cs.permitted_alphabet().unwrap().constraint.as_inner(), &vec![97, 98]);
    assert!(cs.extensible());
    assert!(!Constraints::new(vec![value.clone()]).extensible());
    assert!(Constraints::default().value().is_none());
    assert_eq!(size.variant_as_isize(), 1);
    assert!(value.kind().eq(&ConstraintDiscriminant::Value));
    assert!(!value.kind().eq(&ConstraintDiscriminant::Size));
    assert_eq!(Constraint::default(), Constraint::Empty);
}

#[test]
fn merge_overrides_same_kind() {
    let base = Constraints::new(vec![
        Constraint::Value(Extensible::new(Value::new(Bounded::new(0, 100)))),
        Constraint::Size(Extensible::new(Size::fixed(4))),
    ]);
    let over = Constraints::new(vec![Constraint::Value(Extensible::new(Value::new(Bounded::new(
        5, 6,
    ))))]);
    let (merged, n) = base.merge(over);
    assert_eq!(n, 2);
    let cs = Constraints::from_fixed_size((merged, n));
    assert_eq!(cs.value().unwrap().constraint.value, Bounded::new(5, 6));
    assert_eq!(cs.size().unwrap().constraint, Size::fixed(4));
    assert_eq!(cs.inner().len(), 2);
}

#[test]
fn test_basic_int_ops() {
    let integer = Integer::from_u64(0x1234_5678);
    let result = integer.checked_add(&Integer::from_i64(1));
    match result {
        Integer::Primitive(value) => assert!(value == 0x1234_5679),
        _ => panic!("Expected primitive integer"),
    }
    let result = integer.checked_sub(&Integer::from_i64(1));
    match result {
        Integer::Primitive(value) => assert!(value == 0x1234_5677),
        _ => panic!("Expected primitive integer"),
    }
    let result = integer.checked_mul(&Integer::from_i64(2));
    match result {
        Integer::Primitive(value) => assert!(value == 0x2468_ACF0),
        _ => panic!("Expected primitive integer"),
    }
}

#[test]
fn overflow_moves_to_bytes() {
    let max = Integer::from_i64(i64::MAX);
    let sum = max.checked_add(&Integer::from_i64(1));
    assert_eq!(sum, Integer::Variable(vec![0x00, 0x80, 0, 0, 0, 0, 0, 0, 0]));
    assert_eq!(sum.to_i64(), None);
    assert_eq!(sum.to_u64(), Some(1u64 << 63));
    let back = sum.checked_sub(&Integer::from_i64(1));
    assert_eq!(back.to_i64(), Some(i64::MAX));
    let product = max.checked_mul(&max);
    assert_eq!(product.to_i128(), Some(i64::MAX as i128 * i64::MAX as i128));
}

#[test]
fn test_try_into_int_error() {
    let integer = Integer::from_u64(0x1234_5678);
    let result = integer.clone().try_into_u8();
    assert!(result.is_err());
    let result = integer.clone().try_into_u16();
    match result {
        Err(_) => (),
        _ => panic!("Expected error"),
    }
    let result = integer.try_into_u32();
    match result {
        Ok(value) => assert!(value == 0x1234_5678u32),
        _ => panic!("Expected Ok"),
    }
    let integer = Integer::from_signed_bytes(&num_bigint::BigInt::from(0x1234_5678u32).to_signed_bytes_be());
    let result = integer.clone().try_into_u8();
    assert_eq!(result.unwrap_err().into_original(), integer);
}

#[test]
fn minimal_bytes() {
    assert_eq!(Integer::from_i64(0).to_signed_bytes_be(), vec![0]);
    assert_eq!(Integer::from_i64(128).to_signed_bytes_be(), vec![0, 128]);
    assert_eq!(Integer::from_i64(-129).to_signed_bytes_be(), vec![0xff, 0x7f]);
    assert_eq!(Integer::from_i64(255).to_unsigned_bytes_be(), vec![255]);
    assert_eq!(Integer::from_i64(-1234567).signed_bytes_needed(), 3);
    assert_eq!(Integer::from_i64(65536).unsigned_bytes_needed(), 3);
    assert_eq!(integer_to_bytes(&Integer::from_i64(-1), false), None);
    assert_eq!(integer_to_bytes(&Integer::from_i64(200), true), Some(vec![0, 200]));
    assert_eq!(Integer::from_unsigned_bytes(&[0xff]).to_i64(), Some(255));
    assert_eq!(Integer::from_signed_bytes(&[0xff]).to_i64(), Some(-1));
    assert!(Integer::from_i64(-3).is_negative());
}

#[test]
fn range_from_bit_length() {
    assert_eq!(range_from_len(8), 255);
    assert_eq!(range_from_len(0), 0);
    assert_eq!(range_from_len(126), (1i128 << 126) - 1);
}

#[test]
fn effective_values() {
    assert_eq!(Bounded::<i128>::new(10, 20).effective_value(15), EffectiveValue::Offset(5));
    assert_eq!(Bounded::<i128>::new(-10, 20).effective_value(15), EffectiveValue::Plain(15));
    assert_eq!(Bounded::<i128>::Unbounded.effective_value(-3), EffectiveValue::Plain(-3));
    assert_eq!(
        Bounded::<i128>::start_from(100).effective_integer_value(Integer::from_i64(130)),
        EffectiveValue::Offset(Integer::from_i64(30))
    );
    assert_eq!(Bounded::<i128>::octet_size_by_range(-300), Some(2));
    assert_eq!(Bounded::<i128>::octet_size_by_range(i128::MIN), None);
}

#[test]
fn integer_type_conversions() {
    assert_eq!(<i32 as IntegerType>::try_from_signed_bytes(&[0x80, 0x00]).unwrap(), -32768);
    assert_eq!(<u32 as IntegerType>::try_from_signed_bytes(&[0x00, 0xff]).unwrap(), 255);
    assert!(<u32 as IntegerType>::try_from_signed_bytes(&[0xff]).is_err());
    assert!(<i64 as IntegerType>::try_from_signed_bytes(&[]).is_err());
    assert!(<i32 as IntegerType>::try_from_signed_bytes(&[1, 0, 0, 0, 0]).is_err());
    assert_eq!(<u64 as IntegerType>::to_signed_bytes(&u64::MAX), vec![0, 0xff, 0xff, 0xff, 0xff, 0xff, 0xff, 0xff, 0xff]);
    assert_eq!(<i64 as IntegerType>::width(), 64);
    let big = <Integer as IntegerType>::try_from_signed_bytes(&[1, 0, 0, 0, 0, 0, 0, 0, 0]).unwrap();
    assert_eq!(big.to_signed_bytes(), vec![1, 0, 0, 0, 0, 0, 0, 0, 0]);
}

#[test]
fn value_from_size_bound() {
    let v = Value::from_size_bound(Bounded::<usize>::Range { start: Some(1), end: Some(300) });
    assert_eq!(v.value, Bounded::<i128>::new(1, 300));
    assert_eq!((v.get_sign(), v.get_range()), (false, Some(2)));
}

#[test]
fn empty_bytes_read_as_zero() {
    assert_eq!(Integer::from_signed_bytes(&[]), Integer::Primitive(0));
    assert_eq!(Integer::from_unsigned_bytes(&[]).to_i64(), Some(0));
}
