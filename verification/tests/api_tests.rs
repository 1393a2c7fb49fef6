use fbf_wasm_api::api::{CachedInternedStringId, ContextError};
use fbf_wasm_api::api_read::Error as ReadError;
use fbf_wasm_api::api_write::{map_result, Error, ShapeId};
use fbf_wasm_api::provider::Context;
use fbf_wasm_api::write_state::WriteResult;

#[test]
fn test_interned_string_id_cache() {
    let mut cached_interned_string_id = CachedInternedStringId::new("test");

    let mut context = Context::new(Vec::new());
    let id = cached_interned_string_id.load_from_context(&mut context, 1);
    let id2 = cached_interned_string_id.load_from_context(&mut context, 1);
    assert_eq!(id, id2);

    let mut context2 = Context::new(Vec::new());
    // the first interned string ID from a new context is always 0,
    // so we need to mix up the order of interning to make this test work
    context2.intern_bytes(b"test");
    let id3 = cached_interned_string_id.load_from_context(&mut context2, 2);
    assert_ne!(id, id3);
    assert_eq!(context2.interned_bytes(id3), b"test");
}

#[test]
fn test_shape_write_results_map_to_distinct_errors() {
    assert!(matches!(
        map_result(WriteResult::NotAShape.as_usize()),
        Err(Error::NotAShape)
    ));
    assert!(matches!(
        map_result(WriteResult::ShapeDefinitionError.as_usize()),
        Err(Error::ShapeDefinitionError)
    ));
}

#[test]
fn every_write_result_maps_to_its_error() {
    assert_eq!(map_result(0), Ok(()));
    assert_eq!(map_result(1), Err(Error::IoError));
    assert_eq!(map_result(2), Err(Error::ExpectedKey));
    assert_eq!(map_result(3), Err(Error::ObjectLengthError));
    assert_eq!(map_result(4), Err(Error::ValueAlreadyWritten));
    assert_eq!(map_result(5), Err(Error::NotAnObject));
    assert_eq!(map_result(6), Err(Error::ValueNotFinished));
    assert_eq!(map_result(7), Err(Error::ArrayLengthError));
    assert_eq!(map_result(8), Err(Error::NotAnArray));
    assert_eq!(map_result(9), Err(Error::NotAShape));
    assert_eq!(map_result(10), Err(Error::ShapeLengthError));
    assert_eq!(map_result(11), Err(Error::InvalidShapeId));
    assert_eq!(map_result(12), Err(Error::ShapeDefinitionError));
    assert_eq!(map_result(13), Err(Error::Unknown));
    assert_eq!(Error::ShapeLengthError.message(), "Shaped object length error");
}

#[test]
fn error_messages() {
    assert_eq!(ContextError::NullPointer.message(), "Null pointer encountered");
    assert_eq!(ReadError::InvalidType.message(), "Invalid type");
    assert_eq!(ShapeId(3), ShapeId(3));
}
