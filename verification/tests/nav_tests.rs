use fbf_wasm_api::encoding;
use fbf_wasm_api::nav::{parse_input, skip_value, MAX_DEPTH};
use fbf_wasm_api::provider::Context;
use fbf_wasm_api::write_state::WriteResult;

fn payload(body: &[u8]) -> Vec<u8> {
    let mut bytes = Vec::from(encoding::MAGIC);
    bytes.extend_from_slice(&[encoding::VERSION, 0]);
    bytes.extend_from_slice(body);
    bytes
}

fn finish(context: &Context) -> Vec<u8> {
    let (result, bytes) = context.output_finalize_and_return_bytes();
    assert_eq!(result, WriteResult::Success);
    bytes
}

#[test]
fn parses_plain_and_optimized_preludes() {
    // {"x": [1, 2]}
    let mut context = Context::new(Vec::new());
    context.output_new_object(1);
    context.output_new_utf8_bytes(b"x");
    context.output_new_array(2);
    context.output_new_i32(1);
    context.output_new_i32(2);
    context.output_finish_array();
    context.output_finish_object();
    let plain = finish(&context);
    let state = parse_input(&plain).unwrap();
    assert_eq!(state.root, 5);
    assert!(state.strings.is_empty());

    // [{"x": 1, "y": "same"}, {"x": 2, "y": "same"}], with its keys in a shape
    let mut context = Context::new(Vec::new());
    let x = context.intern_bytes(b"x");
    let y = context.intern_bytes(b"y");
    let same = context.intern_bytes(b"same");
    assert_eq!(context.output_shape_define_new(2), WriteResult::Success);
    assert_eq!(context.output_shape_define_key(x), WriteResult::Success);
    assert_eq!(context.output_shape_define_key(y), WriteResult::Success);
    let (result, shape) = context.output_shape_define_finish();
    assert_eq!(result, WriteResult::Success);
    context.output_new_array(2);
    for value in [1, 2] {
        context.output_new_shaped_object(shape);
        context.output_new_i32(value);
        context.output_new_interned_utf8_str(same);
        context.output_finish_shaped_object();
    }
    context.output_finish_array();
    let optimized = finish(&context);
    let state = parse_input(&optimized).unwrap();
    assert!(state.root > 5);
    assert!(!state.strings.is_empty());
    assert!(!state.shapes.is_empty());
}

#[test]
fn skips_all_framing_classes() {
    for body in [
        vec![0x2a],
        vec![encoding::FIXSTR_MIN + 2, b'h', b'i'],
        vec![encoding::STR8, 2, b'h', b'i'],
        vec![encoding::FIXARRAY0],
        vec![encoding::FIXARRAY0 + 3, 3, 1, 2, 3],
        vec![encoding::SEQFIXARRAY_MIN + 2, 1, 2, 3],
        vec![encoding::SEQARRAY, 3, 1, 2, 3],
    ] {
        let bytes = payload(&body);
        let state = parse_input(&bytes).unwrap();
        assert_eq!(
            skip_value(&bytes, &state, state.root, bytes.len() as u32),
            Ok(bytes.len() as u32)
        );
    }
}

#[test]
fn skips_mixed_sequential_children() {
    let body = [
        encoding::FIXARRAY0 + 2,
        5,
        encoding::SEQFIXARRAY_MIN,
        1,
        encoding::STR8,
        1,
        b'x',
    ];
    let bytes = payload(&body);
    let state = parse_input(&bytes).unwrap();
    assert_eq!(
        skip_value(&bytes, &state, state.root, bytes.len() as u32),
        Ok(bytes.len() as u32)
    );
}

#[test]
fn rejects_bad_headers_and_structural_truncation() {
    assert!(parse_input(b"FBF\x01\0").is_err());
    assert!(parse_input(b"BAD\x01\0\x80").is_err());
    let bytes = payload(&[encoding::STR16, 3, 0, b'x']);
    let state = parse_input(&bytes).unwrap();
    assert!(skip_value(&bytes, &state, state.root, bytes.len() as u32).is_err());
}

#[test]
fn rejects_reserved_tags_and_excess_depth() {
    let bytes = payload(&[0x9f]);
    let state = parse_input(&bytes).unwrap();
    assert!(skip_value(&bytes, &state, state.root, bytes.len() as u32).is_err());

    let mut body = vec![encoding::SEQFIXARRAY_MIN; (MAX_DEPTH + 1) as usize];
    body.push(encoding::NIL);
    let bytes = payload(&body);
    let state = parse_input(&bytes).unwrap();
    assert!(skip_value(&bytes, &state, state.root, bytes.len() as u32).is_err());
}

#[test]
fn accepts_nesting_up_to_the_depth_limit() {
    let mut body = vec![encoding::SEQFIXARRAY_MIN; MAX_DEPTH as usize];
    body.push(encoding::NIL);
    let bytes = payload(&body);
    let state = parse_input(&bytes).unwrap();
    assert_eq!(
        skip_value(&bytes, &state, state.root, bytes.len() as u32),
        Ok(bytes.len() as u32)
    );
}

#[test]
fn rejects_reserved_flags_and_a_missing_root() {
    assert!(parse_input(&[b'F', b'B', b'F', encoding::VERSION, 4, 0]).is_err());
    assert!(parse_input(&[b'F', b'B', b'F', 2, 0, 0]).is_err());
    assert!(parse_input(&payload(&[])).is_err());
}

#[test]
fn string_table_entries_are_spans_of_the_payload() {
    let bytes = [
        b'F', b'B', b'F', encoding::VERSION, encoding::FLAG_STRING_TABLE, 2, 2, b'h', b'i', 0,
        encoding::STRREF8, 0,
    ];
    let state = parse_input(&bytes).unwrap();
    assert_eq!(state.strings, vec![(7, 2), (10, 0)]);
    assert_eq!(state.root, 10);
}
