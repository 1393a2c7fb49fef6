use fbf_wasm_api::encoding::{
    FIXARRAY0, FIXMAP0, FIXSTR_MIN, FLOAT64, INT16, INT32, INT8, SEQARRAY, SEQFIXARRAY_MIN,
    SEQFIXMAP_MIN, SEQMAP, SEQSHAPE, STR16, STR32, STR8, UINT16, UINT32, UINT8,
};
use fbf_wasm_api::interner::InternedStringId;
use fbf_wasm_api::nav::{Decoded, Num};
use fbf_wasm_api::provider::{boxed, initialize_from_fbf_bytes, Context};
use fbf_wasm_api::write_state::{State, WriteResult};
use serde_json::Value;

fn decode(context: &mut Context, value: Decoded) -> Value {
    match value {
        Decoded::Null => Value::Null,
        Decoded::Bool(b) => Value::Bool(b),
        Decoded::Number(Num::Int(i)) => Value::from(i),
        Decoded::Number(Num::UInt(u)) => Value::from(u),
        Decoded::Number(Num::Float32(b)) => Value::from(f32::from_bits(b) as f64),
        Decoded::Number(Num::Float64(b)) => Value::from(f64::from_bits(b)),
        Decoded::String { content, len } => {
            let start = content as usize;
            let bytes = context.input_bytes()[start..start + len as usize].to_vec();
            Value::String(String::from_utf8(bytes).unwrap())
        }
        Decoded::Array { count, .. } => {
            let scope = boxed(value).unwrap().to_bits();
            let mut items = Vec::new();
            for i in 0..count as usize {
                let item = context.input_get_at_index(scope, i).unwrap();
                items.push(decode(context, item));
            }
            Value::Array(items)
        }
        Decoded::Object { count, .. } => {
            let scope = boxed(value).unwrap().to_bits();
            let mut map = serde_json::Map::new();
            for i in 0..count as usize {
                let key = context.input_get_obj_key_at_index(scope, i).unwrap();
                let key = match decode(context, key) {
                    Value::String(s) => s,
                    other => panic!("expected a key, got {other}"),
                };
                let item = context.input_get_at_index(scope, i).unwrap();
                let item = decode(context, item);
                map.insert(key, item);
            }
            Value::Object(map)
        }
    }
}

fn bytes_to_json(context: &Context) -> Value {
    let bytes = context.assemble_output_payload();
    let mut reader = Context::new(bytes);
    let root = reader.input_get().unwrap();
    decode(&mut reader, root)
}

fn write_key(context: &mut Context, key: &str) -> WriteResult {
    let (result, offset) = context.output_new_utf8_str(key.len());
    if result != WriteResult::Success {
        return result;
    }
    context.output_fill(offset, key.as_bytes());
    WriteResult::Success
}

fn intern_string(context: &mut Context, value: &str) -> InternedStringId {
    let (id, _) = context.intern_utf8_str(value.len());
    context.fill_interned(id, value.as_bytes());
    id
}

fn define_shape(context: &mut Context, keys: &[InternedStringId]) -> usize {
    assert_eq!(context.output_shape_define_new(keys.len()), WriteResult::Success);
    for &key in keys {
        assert_eq!(context.output_shape_define_key(key), WriteResult::Success);
    }
    let (result, shape_id) = context.output_shape_define_finish();
    assert_eq!(result, WriteResult::Success);
    shape_id
}

fn object(entries: &[(&str, Value)]) -> Value {
    let mut map = serde_json::Map::new();
    for (key, value) in entries {
        map.insert(key.to_string(), value.clone());
    }
    Value::Object(map)
}

#[test]
fn test_write_context_bool() {
    let mut context = Context::new(Vec::new());
    context.output_new_bool(true);
    assert_eq!(context.output_state(), State::End);
    assert_eq!(context.output_new_bool(true), WriteResult::ValueAlreadyWritten);
    let json = bytes_to_json(&context);
    assert_eq!(json, Value::Bool(true));
}

#[test]
fn test_write_context_null() {
    let mut context = Context::new(Vec::new());
    context.output_new_null();
    assert_eq!(context.output_state(), State::End);
    assert_eq!(context.output_new_null(), WriteResult::ValueAlreadyWritten);
    let json = bytes_to_json(&context);
    assert_eq!(json, Value::Null);
}

#[test]
fn test_write_context_i32() {
    let mut context = Context::new(Vec::new());
    context.output_new_i32(42);
    assert_eq!(context.output_state(), State::End);
    assert_eq!(context.output_new_i32(42), WriteResult::ValueAlreadyWritten);
    let json = bytes_to_json(&context);
    assert_eq!(json, Value::from(42));
}

#[test]
fn test_i32_uses_smallest_fbf_encoding() {
    let cases: &[(i32, &[u8])] = &[
        (0, &[0x00]),
        (127, &[0x7f]),
        (-1, &[0xff]),
        (-32, &[0xe0]),
        (128, &[UINT8, 0x80]),
        (255, &[UINT8, 0xff]),
        (256, &[UINT16, 0x00, 0x01]),
        (65535, &[UINT16, 0xff, 0xff]),
        (65536, &[UINT32, 0x00, 0x00, 0x01, 0x00]),
        (i32::MAX, &[UINT32, 0xff, 0xff, 0xff, 0x7f]),
        (-33, &[INT8, 0xdf]),
        (-128, &[INT8, 0x80]),
        (-129, &[INT16, 0x7f, 0xff]),
        (-32768, &[INT16, 0x00, 0x80]),
        (-32769, &[INT32, 0xff, 0x7f, 0xff, 0xff]),
        (i32::MIN, &[INT32, 0x00, 0x00, 0x00, 0x80]),
    ];

    for &(value, expected) in cases {
        let mut context = Context::new(Vec::new());
        assert_eq!(context.output_new_i32(value), WriteResult::Success);
        assert_eq!(context.output_bytes(), expected, "value {value}");
        assert_eq!(bytes_to_json(&context), Value::from(value));
    }
}

#[test]
fn test_write_context_f64() {
    let mut context = Context::new(Vec::new());
    context.output_new_f64_bits(42.0f64.to_bits());
    assert_eq!(context.output_state(), State::End);
    assert_eq!(context.output_new_f64_bits(42.0f64.to_bits()), WriteResult::ValueAlreadyWritten);
    let mut expected = vec![FLOAT64];
    expected.extend_from_slice(&42.0_f64.to_le_bytes());
    assert_eq!(context.output_bytes(), expected.as_slice());
    let json = bytes_to_json(&context);
    assert_eq!(json, Value::from(42.0));
}

#[test]
fn test_write_context_utf8_str() {
    let mut context = Context::new(Vec::new());
    let s = "hello";
    let (result, offset) = context.output_new_utf8_str(s.len());
    assert_eq!(result, WriteResult::Success);
    context.output_fill(offset, s.as_bytes());
    let (result, offset) = context.output_new_utf8_str(s.len());
    assert_eq!(result, WriteResult::ValueAlreadyWritten);
    assert_eq!(offset, 0);
    let json = bytes_to_json(&context);
    assert_eq!(json, Value::from(s));
}

#[test]
fn test_utf8_string_fbf_length_encodings() {
    let cases: &[(usize, &[u8])] = &[
        (0, &[FIXSTR_MIN]),
        (31, &[FIXSTR_MIN + 31]),
        (32, &[STR8, 32]),
        (255, &[STR8, 255]),
        (256, &[STR16, 0x00, 0x01]),
        (65535, &[STR16, 0xff, 0xff]),
        (65536, &[STR32, 0x00, 0x00, 0x01, 0x00]),
    ];

    for &(len, expected_prefix) in cases {
        let mut context = Context::new(Vec::new());
        let (result, offset) = context.output_new_utf8_str(len);
        assert_eq!(result, WriteResult::Success);
        assert_eq!(offset, expected_prefix.len());
        assert!(context.output_bytes().starts_with(expected_prefix));
        assert_eq!(context.output_bytes().len(), expected_prefix.len() + len, "length {len}");
        assert_eq!(bytes_to_json(&context).as_str().unwrap().len(), len, "length {len}");
    }
}

#[test]
fn test_write_context_object() {
    let mut context = Context::new(Vec::new());
    assert_eq!(context.output_new_object(2), WriteResult::Success);
    assert_eq!(context.output_new_bool(true), WriteResult::ExpectedKey);
    assert_eq!(write_key(&mut context, "key"), WriteResult::Success);
    assert_eq!(context.output_new_bool(false), WriteResult::Success);
    assert_eq!(context.output_finish_object(), WriteResult::ObjectLengthError);
    assert_eq!(write_key(&mut context, "other_key"), WriteResult::Success);
    assert_eq!(context.output_new_object(0), WriteResult::Success);
    assert_eq!(context.output_finish_object(), WriteResult::Success);
    assert_eq!(context.output_finish_object(), WriteResult::Success);
    assert_eq!(context.output_new_object(0), WriteResult::ValueAlreadyWritten);
    let json = bytes_to_json(&context);
    assert_eq!(json, object(&[("key", Value::Bool(false)), ("other_key", object(&[]))]));
}

#[test]
fn test_write_context_array() {
    let mut context = Context::new(Vec::new());
    assert_eq!(context.output_new_array(2), WriteResult::Success);
    assert_eq!(context.output_new_bool(true), WriteResult::Success);
    assert_eq!(context.output_finish_array(), WriteResult::ArrayLengthError);
    assert_eq!(context.output_new_array(0), WriteResult::Success);
    assert_eq!(context.output_finish_array(), WriteResult::Success);
    assert_eq!(context.output_finish_array(), WriteResult::Success);
    assert_eq!(context.output_new_array(0), WriteResult::ValueAlreadyWritten);
    let json = bytes_to_json(&context);
    assert_eq!(json, Value::Array(vec![Value::Bool(true), Value::Array(vec![])]));
}

#[test]
fn test_array_and_map_use_sequential_fbf_framing() {
    let array_cases: &[(usize, &[u8])] = &[
        (0, &[FIXARRAY0]),
        (1, &[SEQFIXARRAY_MIN]),
        (7, &[SEQFIXARRAY_MIN + 6]),
        (8, &[SEQARRAY, 8]),
        (300, &[SEQARRAY, 0xac, 0x02]),
    ];
    for &(len, expected) in array_cases {
        let mut context = Context::new(Vec::new());
        assert_eq!(context.output_new_array(len), WriteResult::Success);
        assert_eq!(context.output_bytes(), expected, "array length {len}");
    }

    let map_cases: &[(usize, &[u8])] = &[
        (0, &[FIXMAP0]),
        (1, &[SEQFIXMAP_MIN]),
        (7, &[SEQFIXMAP_MIN + 6]),
        (8, &[SEQMAP, 8]),
        (300, &[SEQMAP, 0xac, 0x02]),
    ];
    for &(len, expected) in map_cases {
        let mut context = Context::new(Vec::new());
        assert_eq!(context.output_new_object(len), WriteResult::Success);
        assert_eq!(context.output_bytes(), expected, "map length {len}");
    }
}

#[test]
fn test_write_shaped_object() {
    let mut context = Context::new(Vec::new());
    let x = intern_string(&mut context, "x");
    let y = intern_string(&mut context, "y");
    let shape_id = define_shape(&mut context, &[x, y]);
    assert_eq!(shape_id, 0);

    assert_eq!(context.output_new_shaped_object(shape_id), WriteResult::Success);
    assert_eq!(context.output_new_i32(1), WriteResult::Success);
    assert_eq!(context.output_new_i32(2), WriteResult::Success);
    assert_eq!(context.output_finish_shaped_object(), WriteResult::Success);

    assert_eq!(context.output_bytes(), &[SEQSHAPE, 0, 1, 2]);
    assert_eq!(
        bytes_to_json(&context),
        object(&[("x", Value::from(1)), ("y", Value::from(2))])
    );
}

#[test]
fn test_write_shaped_objects_nested_in_array_and_object() {
    let mut context = Context::new(Vec::new());
    let x = intern_string(&mut context, "x");
    let y = intern_string(&mut context, "y");
    let shape_id = define_shape(&mut context, &[x, y]);

    assert_eq!(context.output_new_object(2), WriteResult::Success);
    assert_eq!(write_key(&mut context, "items"), WriteResult::Success);
    assert_eq!(context.output_new_array(1), WriteResult::Success);
    assert_eq!(context.output_new_shaped_object(shape_id), WriteResult::Success);
    assert_eq!(context.output_new_i32(1), WriteResult::Success);
    assert_eq!(context.output_new_i32(2), WriteResult::Success);
    assert_eq!(context.output_finish_shaped_object(), WriteResult::Success);
    assert_eq!(context.output_finish_array(), WriteResult::Success);

    assert_eq!(write_key(&mut context, "point"), WriteResult::Success);
    assert_eq!(context.output_new_shaped_object(shape_id), WriteResult::Success);
    assert_eq!(context.output_new_i32(3), WriteResult::Success);
    assert_eq!(context.output_new_i32(4), WriteResult::Success);
    assert_eq!(context.output_finish_shaped_object(), WriteResult::Success);
    assert_eq!(context.output_finish_object(), WriteResult::Success);

    assert_eq!(
        bytes_to_json(&context),
        object(&[
            ("items", Value::Array(vec![object(&[("x", Value::from(1)), ("y", Value::from(2))])])),
            ("point", object(&[("x", Value::from(3)), ("y", Value::from(4))])),
        ])
    );
}

#[test]
fn test_shaped_object_and_definition_errors() {
    let mut context = Context::new(Vec::new());
    assert_eq!(context.output_finish_shaped_object(), WriteResult::NotAShape);
    assert_eq!(context.output_new_shaped_object(0), WriteResult::InvalidShapeId);
    assert_eq!(context.output_state(), State::Start);
    assert!(context.output_bytes().is_empty());

    let x = intern_string(&mut context, "x");
    let y = intern_string(&mut context, "y");
    assert_eq!(context.output_shape_define_key(x), WriteResult::ShapeDefinitionError);
    assert_eq!(
        context.output_shape_define_finish(),
        (WriteResult::ShapeDefinitionError, 0)
    );
    assert_eq!(context.output_shape_define_new(1), WriteResult::Success);
    assert_eq!(context.output_shape_define_new(1), WriteResult::ShapeDefinitionError);
    assert_eq!(
        context.output_shape_define_finish(),
        (WriteResult::ShapeDefinitionError, 0)
    );
    assert_eq!(context.output_shape_define_key(x), WriteResult::Success);
    assert_eq!(context.output_shape_define_key(y), WriteResult::ShapeDefinitionError);
    assert_eq!(context.output_shape_define_finish(), (WriteResult::Success, 0));

    assert_eq!(context.output_new_shaped_object(0), WriteResult::Success);
    assert_eq!(context.output_finish_shaped_object(), WriteResult::ShapeLengthError);
    assert_eq!(context.output_new_i32(1), WriteResult::Success);
    assert_eq!(context.output_finish_shaped_object(), WriteResult::Success);
    assert_eq!(context.output_finish_shaped_object(), WriteResult::NotAShape);
}

#[test]
fn test_finalize_returns_full_payload_and_rejects_open_shape_definition() {
    let mut context = Context::new(Vec::new());
    initialize_from_fbf_bytes(&mut context, Vec::new());
    let (result, bytes) = context.output_finalize_and_return_bytes();
    assert_eq!(result, WriteResult::ValueNotFinished);
    assert!(bytes.is_empty());

    assert_eq!(context.output_new_null(), WriteResult::Success);
    assert_eq!(context.output_shape_define_new(0), WriteResult::Success);
    let (result, bytes) = context.output_finalize_and_return_bytes();
    assert_eq!(result, WriteResult::ShapeDefinitionError);
    assert!(bytes.is_empty());

    let (result, shape_id) = context.output_shape_define_finish();
    assert_eq!(result, WriteResult::Success);
    assert_eq!(shape_id, 0);
    let (result, bytes) = context.output_finalize_and_return_bytes();
    assert_eq!(result, WriteResult::Success);
    let mut reader = Context::new(bytes);
    assert_eq!(reader.input_get(), Ok(Decoded::Null));
}

#[test]
fn test_shape_key_interning_writes_string_reference_in_map() {
    let mut context = Context::new(Vec::new());
    let x = intern_string(&mut context, "x");
    define_shape(&mut context, &[x]);

    assert_eq!(context.output_new_object(1), WriteResult::Success);
    assert_eq!(context.output_new_interned_utf8_str(x), WriteResult::Success);
    assert_eq!(context.output_new_i32(42), WriteResult::Success);
    assert_eq!(context.output_finish_object(), WriteResult::Success);

    assert!(context.output_bytes().contains(&0x99));
    assert_eq!(bytes_to_json(&context), object(&[("x", Value::from(42))]));
}

#[test]
fn interned_strings_with_the_same_bytes_share_a_table_entry() {
    let mut context = Context::new(Vec::new());
    let a = intern_string(&mut context, "k");
    let b = intern_string(&mut context, "k");
    let shape = define_shape(&mut context, &[a, b]);
    context.output_new_shaped_object(shape);
    context.output_new_i32(1);
    context.output_new_i32(2);
    context.output_finish_shaped_object();
    let payload = context.assemble_output_payload();
    // One string-table entry ("k") referenced twice by the shape.
    assert_eq!(&payload[..10], &[b'F', b'B', b'F', 1, 3, 1, 1, b'k', 1, 2]);
    let interned = intern_string(&mut context, "unrelated");
    let mut fresh = Context::new(Vec::new());
    let inline = fresh.intern_bytes(b"inline");
    fresh.output_new_interned_utf8_str(inline);
    assert_eq!(fresh.output_bytes(), &[FIXSTR_MIN + 6, b'i', b'n', b'l', b'i', b'n', b'e']);
    assert!(interned > b);
}

#[test]
fn written_values_read_back_through_the_payload() {
    let mut context = Context::new(Vec::new());
    context.output_new_array(4);
    context.output_new_i32(-70000);
    context.output_new_utf8_bytes("héllo".as_bytes());
    context.output_new_null();
    context.output_new_f64_bits((-0.5f64).to_bits());
    context.output_finish_array();
    assert_eq!(
        bytes_to_json(&context),
        Value::Array(vec![Value::from(-70000), Value::from("héllo"), Value::Null, Value::from(-0.5)])
    );
}

#[test]
fn logs_survive_in_the_context() {
    let mut context = Context::new(Vec::new());
    context.log_utf8_bytes(b"hello ");
    context.log_utf8_bytes(b"world");
    let (first, first_len, second, _) = context.log_read_ranges();
    assert_eq!(first, 0);
    assert_eq!(first_len, 11);
    assert_eq!(second, None);
}

#[test]
fn test_reinitialising_clears_output_tables_and_keeps_interned_strings() {
    let mut context = Context::new(Vec::new());
    let key = context.intern_bytes(b"key");
    assert_eq!(context.output_shape_define_new(1), WriteResult::Success);
    assert_eq!(context.output_shape_define_key(key), WriteResult::Success);
    assert_eq!(context.output_new_bool(true), WriteResult::Success);
    context.log_utf8_bytes(b"old log");

    initialize_from_fbf_bytes(&mut context, Vec::new());
    assert_eq!(context.output_state(), State::Start);
    assert_eq!(context.output_string_table_len(), 0);
    assert!(!context.shape_key_expected());
    assert_eq!(context.log_read_ranges().1, 0);
    assert_eq!(context.interned_bytes(key), b"key");

    assert_eq!(context.output_new_null(), WriteResult::Success);
    let (result, bytes) = context.output_finalize_and_return_bytes();
    assert_eq!(result, WriteResult::Success);
    let mut reader = Context::new(bytes);
    assert_eq!(reader.input_get(), Ok(Decoded::Null));
}
