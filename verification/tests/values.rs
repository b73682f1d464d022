use antc::value::{ConstVal, IntValue, TypedExpression};

#[test]
fn signed_values_are_twos_complement() {
    assert_eq!(IntValue::I64(-1).to_le_bytes(), vec![0xff; 8]);
    assert_eq!(IntValue::I32(-2).to_le_bytes(), vec![0xfe, 0xff, 0xff, 0xff]);
    assert_eq!(IntValue::I16(0x1234).to_le_bytes(), vec![0x34, 0x12]);
    assert_eq!(IntValue::I8(-128).to_le_bytes(), vec![0x80]);
    assert_eq!(IntValue::I64(i64::MIN).to_le_bytes(), i64::MIN.to_le_bytes().to_vec());
}

#[test]
fn unsigned_values_are_little_endian() {
    assert_eq!(IntValue::U64(0x0102030405060708).to_le_bytes(), vec![8, 7, 6, 5, 4, 3, 2, 1]);
    assert_eq!(IntValue::U32(u32::MAX).to_le_bytes(), vec![0xff; 4]);
    assert_eq!(IntValue::U16(258).to_le_bytes(), vec![2, 1]);
    assert_eq!(IntValue::U8(200).to_le_bytes(), vec![200]);
}

#[test]
fn word_sized_values_use_platform_width() {
    assert_eq!(IntValue::USize(5).to_le_bytes(), 5usize.to_le_bytes().to_vec());
    assert_eq!(IntValue::ISize(-3).to_le_bytes(), (-3isize).to_le_bytes().to_vec());
    assert_eq!(IntValue::ISize(-3).to_le_bytes().len(), std::mem::size_of::<isize>());
}

#[test]
fn bytes_read_back_to_the_value() {
    for v in [-70000i32, -1, 0, 1, 65535, i32::MIN, i32::MAX] {
        let bytes = IntValue::I32(v).to_le_bytes();
        let back = i32::from_le_bytes([bytes[0], bytes[1], bytes[2], bytes[3]]);
        assert_eq!(back, v);
    }
}

#[test]
fn const_values_to_bytes() {
    assert_eq!(ConstVal::Int(IntValue::U16(1)).to_le_bytes(), vec![1, 0]);
    assert_eq!(ConstVal::Str("hi".to_string()).to_le_bytes(), b"hi".to_vec());
    assert_eq!(ConstVal::Str("é€".to_string()).to_le_bytes(), vec![0xc3, 0xa9, 0xe2, 0x82, 0xac]);
    assert_eq!(ConstVal::Str(String::new()).to_le_bytes(), Vec::<u8>::new());
    assert_eq!(ConstVal::Bool(true).to_le_bytes(), vec![1]);
    assert_eq!(ConstVal::Bool(false).to_le_bytes(), vec![0]);
}

#[test]
fn literals_to_constants() {
    match (TypedExpression::Int { value: IntValue::I32(7) }).to_const() {
        Some(ConstVal::Int(IntValue::I32(7))) => {}
        other => panic!("unexpected {:?}", other),
    }
    match (TypedExpression::StrLiteral { value: "s".to_string() }).to_const() {
        Some(ConstVal::Str(s)) => assert_eq!(s, "s"),
        other => panic!("unexpected {:?}", other),
    }
    match (TypedExpression::Bool { value: false }).to_const() {
        Some(ConstVal::Bool(false)) => {}
        other => panic!("unexpected {:?}", other),
    }
    assert!(TypedExpression::Other.to_const().is_none());
}
