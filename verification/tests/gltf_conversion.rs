use selection_cache::gltf_bytes_converter::{convert_bytes, ConvertError};

#[test]
fn convert_minimal_standard_gltf() {
    let bytes: Vec<u8> = br#"{"asset":{"version":"2.0"}}"#.to_vec();
    let parsed = gltf::import_slice(bytes.as_slice());
    let result = convert_bytes(&bytes, parsed);
    match result {
        Ok((document, buffers, images)) => {
            assert_eq!(0, document.meshes().len());
            assert_eq!(0, document.nodes().len());
            assert_eq!(0, document.scenes().len());
            assert_eq!(0, buffers.len());
            assert_eq!(0, images.len());
        }
        Err(err) => {
            panic!("conversion of a minimal document failed: {:?}", err)
        }
    }
}

#[test]
fn convert_rejects_garbage_bytes() {
    let bytes: Vec<u8> = vec![0u8, 1, 2, 3, 4, 5, 6, 7];
    let parsed = gltf::import_slice(bytes.as_slice());
    let result = convert_bytes(&bytes, parsed);
    assert!(matches!(result, Err(ConvertError::Boxed(_))));
}

#[test]
fn convert_rejects_truncated_glb_container() {
    // the binary container magic followed by nothing parseable
    let mut bytes: Vec<u8> = b"glTF".to_vec();
    bytes.extend_from_slice(&[0u8; 4]);
    let parsed = gltf::import_slice(bytes.as_slice());
    let result = convert_bytes(&bytes, parsed);
    assert!(matches!(result, Err(ConvertError::Boxed(_))));
}

#[test]
fn convert_rejects_invalid_json_document() {
    let bytes: Vec<u8> = br#"{"asset":{}}"#.to_vec();
    let parsed = gltf::import_slice(bytes.as_slice());
    let result = convert_bytes(&bytes, parsed);
    assert!(result.is_err());
}

#[test]
fn convert_passes_parse_failure_through_as_cause() {
    // a failure outcome handed in comes back wrapped, never swallowed
    let bytes: Vec<u8> = br#"{"asset":{"version":"2.0"}}"#.to_vec();
    let parsed: Result<_, gltf::Error> = Err(gltf::Error::MissingBlob);
    let result = convert_bytes(&bytes, parsed);
    assert!(matches!(
        result,
        Err(ConvertError::Boxed(gltf::Error::MissingBlob))
    ));
}
