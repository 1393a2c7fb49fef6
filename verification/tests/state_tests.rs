use fbf_wasm_api::write_state::{State, WriteResult};

#[test]
fn test_write_non_string_scalar() {
    let mut state = State::Start;
    assert_eq!(state.write_non_string_scalar(), WriteResult::Success);
    assert_eq!(state, State::End);
    assert_eq!(state.write_non_string_scalar(), WriteResult::ValueAlreadyWritten);
}

#[test]
fn test_write_string() {
    let mut state = State::Start;
    assert_eq!(state.write_string(), WriteResult::Success);
    assert_eq!(state, State::End);
    assert_eq!(state.write_string(), WriteResult::ValueAlreadyWritten);
}

#[test]
fn test_object() {
    let mut state = State::Start;
    let mut parent_state_stack = Vec::new();
    assert_eq!(state.start_object(3, &mut parent_state_stack), WriteResult::Success);
    assert_eq!(state.write_non_string_scalar(), WriteResult::ExpectedKey);
    assert_eq!(state.write_string(), WriteResult::Success);
    assert_eq!(state.write_string(), WriteResult::Success);
    assert_eq!(state.write_string(), WriteResult::Success);
    assert_eq!(state.start_object(0, &mut parent_state_stack), WriteResult::Success);
    assert_eq!(state.finish_object(&mut parent_state_stack), WriteResult::Success);
    assert_eq!(state.write_string(), WriteResult::Success);
    assert_eq!(state.start_array(0, &mut parent_state_stack), WriteResult::Success);
    assert_eq!(state.finish_array(&mut parent_state_stack), WriteResult::Success);
    assert_eq!(state.write_string(), WriteResult::ObjectLengthError);
    assert_eq!(state.finish_object(&mut parent_state_stack), WriteResult::Success);
    assert_eq!(state, State::End);
    assert_eq!(state.start_object(0, &mut parent_state_stack), WriteResult::ValueAlreadyWritten);
    assert_eq!(parent_state_stack, vec![]);
}

#[test]
fn test_array() {
    let mut state = State::Start;
    let mut parent_state_stack = Vec::new();
    assert_eq!(state.start_array(3, &mut parent_state_stack), WriteResult::Success);
    assert_eq!(state.write_non_string_scalar(), WriteResult::Success);
    assert_eq!(state.finish_array(&mut parent_state_stack), WriteResult::ArrayLengthError);
    assert_eq!(state.start_array(0, &mut parent_state_stack), WriteResult::Success);
    assert_eq!(state.finish_array(&mut parent_state_stack), WriteResult::Success);
    assert_eq!(state.start_object(0, &mut parent_state_stack), WriteResult::Success);
    assert_eq!(state.finish_object(&mut parent_state_stack), WriteResult::Success);
    assert_eq!(state.finish_array(&mut parent_state_stack), WriteResult::Success);
    assert_eq!(state, State::End);
    assert_eq!(state.start_array(0, &mut parent_state_stack), WriteResult::ValueAlreadyWritten);
    assert_eq!(parent_state_stack, vec![]);
}

#[test]
fn shape_state_counts_values_and_refuses_other_closes() {
    let mut state = State::Start;
    let mut stack = Vec::new();
    assert_eq!(state.start_array(1, &mut stack), WriteResult::Success);
    assert_eq!(state.start_shape(2, &mut stack), WriteResult::Success);
    assert_eq!(state.finish_shape(&mut stack), WriteResult::ShapeLengthError);
    assert_eq!(state.finish_array(&mut stack), WriteResult::NotAnArray);
    assert_eq!(state.finish_object(&mut stack), WriteResult::NotAnObject);
    assert_eq!(state.write_string(), WriteResult::Success);
    assert_eq!(state.write_non_string_scalar(), WriteResult::Success);
    assert_eq!(state.write_non_string_scalar(), WriteResult::ShapeLengthError);
    assert_eq!(state.finish_shape(&mut stack), WriteResult::Success);
    assert_eq!(state.finish_array(&mut stack), WriteResult::Success);
    assert_eq!(state, State::End);
    assert_eq!(state.finish_shape(&mut stack), WriteResult::NotAShape);
}

#[test]
fn empty_container_counts_as_one_value() {
    // An empty array inside an array of one leaves the outer array complete, as one
    // scalar would.
    let mut a = State::Start;
    let mut a_stack = Vec::new();
    a.start_array(1, &mut a_stack);
    a.start_array(0, &mut a_stack);
    a.finish_array(&mut a_stack);
    let mut b = State::Start;
    let mut b_stack = Vec::new();
    b.start_array(1, &mut b_stack);
    b.write_non_string_scalar();
    assert_eq!(a, b);
    assert_eq!(a_stack, b_stack);
}

#[test]
fn write_result_codes_roundtrip() {
    for code in 0..13usize {
        let result = WriteResult::from_repr(code).unwrap();
        assert_eq!(result.as_usize(), code);
    }
    assert_eq!(WriteResult::from_repr(13), None);
    assert_eq!(WriteResult::ShapeDefinitionError.as_usize(), 12);
}
