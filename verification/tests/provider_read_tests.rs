use fbf_wasm_api::encoding;
use fbf_wasm_api::nanbox::{ErrorCode, NanBox, ValueRef};
use fbf_wasm_api::nav::{Decoded, Num};
use fbf_wasm_api::provider::{boxed, initialize_from_fbf_bytes, Context};
use fbf_wasm_api::write_state::WriteResult;

fn bits(value: Result<Decoded, ErrorCode>) -> u64 {
    match value {
        Ok(d) => boxed(d).expect("not a number").to_bits(),
        Err(e) => NanBox::error(e).to_bits(),
    }
}

fn number(value: Result<Decoded, ErrorCode>) -> f64 {
    match value {
        Ok(Decoded::Number(Num::Int(i))) => i as f64,
        Ok(Decoded::Number(Num::UInt(u))) => u as f64,
        Ok(Decoded::Number(Num::Float32(b))) => f32::from_bits(b) as f64,
        Ok(Decoded::Number(Num::Float64(b))) => f64::from_bits(b),
        other => panic!("expected a number, got {:?}", other),
    }
}

fn encode_array(values: &[i32]) -> Vec<u8> {
    let mut context = Context::new(Vec::new());
    context.output_new_array(values.len());
    for &value in values {
        context.output_new_i32(value);
    }
    context.output_finish_array();
    let (result, bytes) = context.output_finalize_and_return_bytes();
    assert_eq!(result, WriteResult::Success);
    bytes
}

#[test]
fn long_string_length_and_address_bounds() {
    let text = "x".repeat(16_400);
    let mut writer = Context::new(Vec::new());
    writer.output_new_utf8_bytes(text.as_bytes());
    let (_, bytes) = writer.output_finalize_and_return_bytes();
    let input_len = bytes.len();
    let mut context = Context::new(Vec::new());
    initialize_from_fbf_bytes(&mut context, bytes);

    let root = bits(context.input_get());
    let ValueRef::String { ptr, len } = NanBox::from_bits(root).try_decode().unwrap() else {
        panic!("expected string");
    };
    assert_eq!(len, text.len().min(NanBox::MAX_VALUE_LENGTH));
    assert_eq!(context.input_get_val_len(root), text.len());

    let address = context.input_get_utf8_str_addr(ptr);
    assert!(address.is_some());
    let start = address.unwrap();
    let content = &context.input_bytes()[start..start + text.len()];
    assert_eq!(content, text.as_bytes());
    assert!(context.input_get_utf8_str_addr(input_len).is_some());
    assert_eq!(context.input_get_utf8_str_addr(input_len + 1), None);
}

#[test]
fn descending_index_falls_back_from_cursor() {
    let bytes = encode_array(&[0, 1, 2, 3, 4, 5, 6, 7]);
    let mut context = Context::new(bytes);
    let root = bits(context.input_get());

    for (index, expected) in [(6, 6.0), (2, 2.0), (7, 7.0), (0, 0.0)] {
        let value = context.input_get_at_index(root, index);
        assert_eq!(number(value), expected);
    }
}

#[test]
fn duplicate_shape_key_lookup_returns_first_value() {
    let mut bytes = Vec::from(encoding::MAGIC);
    bytes.extend_from_slice(&[
        encoding::VERSION,
        encoding::FLAG_SHAPE_TABLE,
        1, // shape count
        2, // key count
        encoding::FIXSTR_MIN + 1,
        b'x',
        encoding::FIXSTR_MIN + 1,
        b'x',
        encoding::SHAPE8,
        3, // payload: shape id and two values
        0,
        10,
        20,
    ]);
    let mut context = Context::new(Vec::new());
    initialize_from_fbf_bytes(&mut context, bytes);
    let root = bits(context.input_get());

    for _ in 0..2 {
        let value = context.input_get_obj_prop(root, b"x");
        assert_eq!(number(value), 10.0);
    }
    assert_eq!(context.input_get_val_len(root), 2);

    let key = bits(context.input_get_obj_key_at_index(root, 1));
    let ValueRef::String { ptr, len } = NanBox::from_bits(key).try_decode().unwrap() else {
        panic!("expected string key");
    };
    let address = context.input_get_utf8_str_addr(ptr).unwrap();
    assert_eq!(&context.input_bytes()[address..address + len], b"x");
}

#[test]
fn scope_errors_follow_the_kind_of_value() {
    let bytes = encode_array(&[1, 2]);
    let mut context = Context::new(bytes);
    let root = bits(context.input_get());
    let number = NanBox::number_from_f64_bits(1.0f64.to_bits()).to_bits();
    let unknown_tag = NanBox::NAN_MASK | (7u64 << 46);
    assert_eq!(context.input_get_obj_prop(root, b"x"), Err(ErrorCode::NotAnObject));
    assert_eq!(context.input_get_obj_prop(unknown_tag, b"x"), Err(ErrorCode::DecodeError));
    assert_eq!(context.input_get_at_index(number, 0), Err(ErrorCode::NotIndexable));
    assert_eq!(context.input_get_at_index(unknown_tag, 0), Err(ErrorCode::ReadError));
    assert_eq!(context.input_get_at_index(root, 2), Err(ErrorCode::IndexOutOfBounds));
    assert_eq!(context.input_get_at_index(root, (u32::MAX as usize) + 1), Err(ErrorCode::IndexOutOfBounds));
    assert_eq!(context.input_get_obj_key_at_index(root, 0), Err(ErrorCode::NotAnObject));
    assert_eq!(context.input_get_val_len(number), usize::MAX);
    assert_eq!(context.input_get_val_len(root), 2);
}

#[test]
fn reads_before_the_root_is_parsed_fail() {
    let bytes = encode_array(&[1]);
    let mut context = Context::new(bytes);
    let fake = NanBox::array(5, 1).to_bits();
    assert_eq!(context.input_get_at_index(fake, 0), Err(ErrorCode::ReadError));
    assert_eq!(context.input_get_val_len(fake), usize::MAX);
    let mut broken = Context::new(vec![1, 2, 3]);
    assert_eq!(broken.input_get(), Err(ErrorCode::ReadError));
}

#[test]
fn map_lookup_finds_keys_and_reads_missing_as_null() {
    let mut writer = Context::new(Vec::new());
    writer.output_new_object(2);
    writer.output_new_utf8_bytes(b"a");
    writer.output_new_i32(1);
    writer.output_new_utf8_bytes(b"b");
    writer.output_new_bool(true);
    writer.output_finish_object();
    let (_, bytes) = writer.output_finalize_and_return_bytes();
    let mut context = Context::new(bytes);
    let root = bits(context.input_get());
    assert_eq!(number(context.input_get_obj_prop(root, b"a")), 1.0);
    assert_eq!(context.input_get_obj_prop(root, b"b"), Ok(Decoded::Bool(true)));
    assert_eq!(context.input_get_obj_prop(root, b"c"), Ok(Decoded::Null));
    let b = context.intern_bytes(b"b");
    assert_eq!(context.input_get_interned_obj_prop(root, b), Ok(Decoded::Bool(true)));
    assert_eq!(number(context.input_get_at_index(root, 0)), 1.0);
}

#[test]
fn scope_at_the_invalid_offset_is_a_read_error_on_fresh_caches() {
    let mut context = Context::new(encode_array(&[1, 2]));
    assert!(context.input_get().is_ok());
    let array = NanBox::array(0xffff_ffff, 0).to_bits();
    let object = NanBox::obj(0xffff_ffff, 0).to_bits();
    assert_eq!(context.input_get_at_index(array, 0), Err(ErrorCode::ReadError));
    assert_eq!(context.input_get_obj_prop(object, b"a"), Err(ErrorCode::ReadError));
    assert_eq!(context.input_get_obj_key_at_index(object, 0), Err(ErrorCode::ReadError));
    assert_eq!(context.input_get_val_len(array), usize::MAX);
}
