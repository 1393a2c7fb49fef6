use fbf_wasm_api::nanbox::{ErrorCode, NanBox, Tag, Val, ValueRef};

#[test]
fn test_tag_less_than_max_tag_value() {
    Tag::all().iter().for_each(|tag| {
        assert!((tag.as_val() as u8) <= NanBox::MAX_TAG_VALUE);
    });
}

#[test]
fn test_nan_mask() {
    for i in 0..NanBox::PAYLOAD_SIZE {
        assert!(NanBox::NAN_MASK & (1 << i) == 0);
    }

    for i in NanBox::PAYLOAD_SIZE..(Val::BITS as u8 - 1) {
        assert!(NanBox::NAN_MASK & (1 << i) != 0);
    }

    assert!(NanBox::NAN_MASK & (1 << 63) == 0);
}

#[test]
fn test_nan_mask_and_stdlib_f64_nan_constants_align() {
    let nan_mask = (NanBox::NAN_MASK >> NanBox::F64_OFFSET) as u64;
    for std_nan in &[f64::NAN, f64::INFINITY, f64::NEG_INFINITY] {
        let std_nan_without_sign = std_nan.to_bits() & !(1 << 63);
        let masked = nan_mask & std_nan.to_bits();
        assert_eq!(masked, std_nan_without_sign);
    }
}

#[test]
fn test_nan_mask_is_f64_nan() {
    assert!(f64::from_bits((NanBox::NAN_MASK >> NanBox::F64_OFFSET) as u64).is_nan());
}

#[test]
fn test_payload_mask() {
    for i in 0..NanBox::PAYLOAD_SIZE {
        assert!(NanBox::PAYLOAD_MASK & (1 << i) != 0);
    }

    for i in NanBox::PAYLOAD_SIZE..(Val::BITS as u8) {
        assert!(NanBox::PAYLOAD_MASK & (1 << i) == 0);
    }
}

#[test]
fn test_tag_mask() {
    for i in 0..NanBox::VALUE_SIZE {
        assert!(NanBox::TAG_MASK & (1 << i) == 0);
    }

    for i in NanBox::VALUE_SIZE..NanBox::PAYLOAD_SIZE {
        assert!(NanBox::TAG_MASK & (1 << i) != 0);
    }

    for i in NanBox::PAYLOAD_SIZE..(Val::BITS as u8) {
        assert!(NanBox::TAG_MASK & (1 << i) == 0);
    }
}

#[test]
fn test_null_roundtrip() {
    let null = NanBox::null();
    let value_ref = null.try_decode().unwrap();
    assert_eq!(value_ref, ValueRef::Null);
}

#[test]
fn test_bool_roundtrip() {
    [true, false].iter().for_each(|&val| {
        let boxed = NanBox::bool(val);
        let value_ref = boxed.try_decode().unwrap();
        assert_eq!(value_ref, ValueRef::Bool(val));
    });
}

#[test]
fn test_number_roundtrip() {
    [0.0f64, 1.0, -1.0, f64::MAX, f64::MIN].iter().for_each(|&val| {
        let boxed = NanBox::number_from_f64_bits(val.to_bits());
        let value_ref = boxed.try_decode().unwrap();
        assert_eq!(value_ref, ValueRef::Number(val.to_bits()));
        match value_ref {
            ValueRef::Number(bits) => assert_eq!(f64::from_bits(bits), val),
            _ => panic!("expected a number"),
        }
    });
}

#[test]
fn test_string_roundtrip() {
    let boxed = NanBox::string(1, 2);
    let value_ref = boxed.try_decode().unwrap();
    assert_eq!(value_ref, ValueRef::String { ptr: 1, len: 2 });
}

#[test]
fn test_object_roundtrip() {
    let ptr = 0x12345678;
    let len = 10;
    let boxed = NanBox::obj(ptr, len);
    let value_ref = boxed.try_decode().unwrap();
    assert_eq!(value_ref, ValueRef::Object { ptr, len });
}

#[test]
fn test_error_roundtrip() {
    ErrorCode::all().into_iter().for_each(|code| {
        let error = NanBox::error(code);
        let value_ref = error.try_decode().unwrap();
        assert_eq!(value_ref, ValueRef::Error(code));
    });
}

#[test]
fn long_lengths_saturate_and_bits_roundtrip() {
    let boxed = NanBox::array(7, 20_000);
    assert_eq!(boxed.try_decode().unwrap(), ValueRef::Array { ptr: 7, len: NanBox::MAX_VALUE_LENGTH });
    let again = NanBox::from_bits(boxed.to_bits());
    assert_eq!(again.to_bits(), boxed.to_bits());
    assert_eq!(ErrorCode::from_repr(3), Some(ErrorCode::ReadError));
    assert_eq!(ErrorCode::from_repr(8), None);
    assert_eq!(ErrorCode::IndexOutOfBounds.as_usize(), 5);
}
