use llm_base::gguf::{
    compute_data_position, ContainerType, ElementType, Gguf, GgufLoadError, MetadataScalar,
    MetadataValue,
};

fn push_str_v2(out: &mut Vec<u8>, s: &str) {
    out.extend_from_slice(&(s.len() as u64).to_le_bytes());
    out.extend_from_slice(s.as_bytes());
}

/// A version-2 container: magic, version, tensor count, metadata count.
fn header_v2(tensor_count: u64, kv_count: u64) -> Vec<u8> {
    let mut out = Vec::new();
    out.extend_from_slice(b"GGUF");
    out.extend_from_slice(&2u32.to_le_bytes());
    out.extend_from_slice(&tensor_count.to_le_bytes());
    out.extend_from_slice(&kv_count.to_le_bytes());
    out
}

#[test]
fn alignment_arithmetic_rounds_up_only_when_needed() {
    assert_eq!(compute_data_position(33, 32), Some(64));
    assert_eq!(compute_data_position(64, 32), Some(64));
    assert_eq!(compute_data_position(0, 32), Some(0));
    assert_eq!(compute_data_position(7, 0), None);
}

#[test]
fn invalid_magic_aborts_load() {
    let mut data = b"XXUF".to_vec();
    data.extend_from_slice(&2u32.to_le_bytes());
    match Gguf::load(&data) {
        Err(GgufLoadError::InvalidMagic { magic }) => assert_eq!(magic, b"XXUF".to_vec()),
        other => panic!("expected invalid magic, got {:?}", other),
    }
}

#[test]
fn unsupported_version_is_rejected() {
    let mut data = b"GGUF".to_vec();
    data.extend_from_slice(&3u32.to_le_bytes());
    match Gguf::load(&data) {
        Err(GgufLoadError::InvalidFormatVersion(ContainerType::Gguf(3))) => {},
        other => panic!("expected invalid version, got {:?}", other),
    }
}

#[test]
fn truncated_stream_is_rejected() {
    assert_eq!(Gguf::load(b"GG"), Err(GgufLoadError::UnexpectedEof));
    let data = header_v2(0, 1);
    match Gguf::load(&data) {
        Err(GgufLoadError::UnexpectedEof) => {},
        other => panic!("expected eof, got {:?}", other),
    }
}

#[test]
fn empty_container_aligns_data_to_default() {
    let data = header_v2(0, 0);
    let g = Gguf::load(&data).unwrap();
    assert_eq!(g.metadata.len(), 0);
    assert_eq!(g.tensor_infos.len(), 0);
    // the cursor sits at 24 after the header; the default alignment is 32
    assert_eq!(g.tensor_data_position, 32);
}

#[test]
fn metadata_values_decode_and_duplicates_overwrite() {
    let mut data = header_v2(0, 3);
    push_str_v2(&mut data, "name");
    data.push(8); // string tag
    push_str_v2(&mut data, "llama");
    push_str_v2(&mut data, "count");
    data.push(4); // u32 tag
    data.extend_from_slice(&7u32.to_le_bytes());
    push_str_v2(&mut data, "name");
    data.push(8);
    push_str_v2(&mut data, "vicuna");
    let g = Gguf::load(&data).unwrap();
    assert_eq!(g.metadata.len(), 2);
    let name = g.metadata.iter().find(|(k, _)| k == "name").unwrap();
    assert_eq!(name.1, MetadataValue::Scalar(MetadataScalar::Str("vicuna".to_string())));
    let count = g.metadata.iter().find(|(k, _)| k == "count").unwrap();
    assert_eq!(count.1, MetadataValue::Scalar(MetadataScalar::UInt32(7)));
}

#[test]
fn metadata_array_decodes_homogeneously() {
    let mut data = header_v2(0, 1);
    push_str_v2(&mut data, "dims");
    data.push(9); // array tag
    data.push(2); // element kind: u16
    data.extend_from_slice(&3u64.to_le_bytes());
    data.extend_from_slice(&10u16.to_le_bytes());
    data.extend_from_slice(&20u16.to_le_bytes());
    data.extend_from_slice(&30u16.to_le_bytes());
    let g = Gguf::load(&data).unwrap();
    match &g.metadata[0].1 {
        MetadataValue::Array(_, vs) => {
            assert_eq!(
                vs,
                &vec![
                    MetadataScalar::UInt16(10),
                    MetadataScalar::UInt16(20),
                    MetadataScalar::UInt16(30)
                ]
            );
        },
        other => panic!("expected array, got {:?}", other),
    }
}

#[test]
fn alignment_override_moves_data_position() {
    let mut data = header_v2(0, 1);
    push_str_v2(&mut data, "general.alignment");
    data.push(4); // u32 tag
    data.extend_from_slice(&64u32.to_le_bytes());
    let g = Gguf::load(&data).unwrap();
    assert_eq!(g.tensor_data_position % 64, 0);
    assert!(g.tensor_data_position >= 24);
}

#[test]
fn invalid_utf8_key_aborts_load() {
    let mut data = header_v2(0, 1);
    data.extend_from_slice(&2u64.to_le_bytes());
    data.extend_from_slice(&[0xff, 0xfe]);
    data.push(4);
    data.extend_from_slice(&7u32.to_le_bytes());
    match Gguf::load(&data) {
        Err(GgufLoadError::InvalidUtf8) => {},
        other => panic!("expected invalid utf8, got {:?}", other),
    }
}

fn tensor_descriptor(name: &str, ftype: u32) -> Vec<u8> {
    let mut out = Vec::new();
    push_str_v2(&mut out, name);
    out.extend_from_slice(&2u32.to_le_bytes()); // dimension count
    out.extend_from_slice(&3u64.to_le_bytes());
    out.extend_from_slice(&4u64.to_le_bytes());
    out.extend_from_slice(&ftype.to_le_bytes());
    out.extend_from_slice(&96u64.to_le_bytes()); // offset
    out
}

#[test]
fn tensor_descriptors_decode() {
    let mut data = header_v2(1, 0);
    data.extend_from_slice(&tensor_descriptor("wq", 0));
    let g = Gguf::load(&data).unwrap();
    assert_eq!(g.tensor_infos.len(), 1);
    let (name, info) = &g.tensor_infos[0];
    assert_eq!(name, "wq");
    assert_eq!(info.dimensions, vec![3, 4]);
    assert_eq!(info.element_type, ElementType::F32);
    assert_eq!(info.offset, 96);
}

#[test]
fn unrecognized_element_type_names_tensor_and_code() {
    let mut data = header_v2(1, 0);
    data.extend_from_slice(&tensor_descriptor("wq", 99));
    match Gguf::load(&data) {
        Err(GgufLoadError::UnsupportedElementType { tensor_name, ftype }) => {
            assert_eq!(tensor_name, "wq".to_string());
            assert_eq!(ftype, 99);
        },
        other => panic!("expected unsupported element type, got {:?}", other),
    }
}

#[test]
fn version_one_uses_narrow_lengths() {
    let mut data = b"GGUF".to_vec();
    data.extend_from_slice(&1u32.to_le_bytes());
    data.extend_from_slice(&0u32.to_le_bytes()); // tensor count, 32-bit
    data.extend_from_slice(&1u32.to_le_bytes()); // kv count, 32-bit
    data.extend_from_slice(&3u32.to_le_bytes()); // key length, 32-bit
    data.extend_from_slice(b"bit");
    data.push(7); // bool tag
    data.push(1);
    let g = Gguf::load(&data).unwrap();
    assert_eq!(g.metadata[0].0, "bit");
    assert_eq!(g.metadata[0].1, MetadataValue::Scalar(MetadataScalar::Bool(true)));
}

#[test]
fn duplicate_tensor_names_keep_the_later_descriptor() {
    let mut data = header_v2(2, 0);
    data.extend_from_slice(&tensor_descriptor("wq", 0));
    data.extend_from_slice(&tensor_descriptor("wq", 1));
    let g = Gguf::load(&data).unwrap();
    assert_eq!(g.tensor_infos.len(), 1);
    assert_eq!(g.tensor_infos[0].1.element_type, ElementType::F16);
}

#[test]
fn wrong_typed_alignment_override_falls_back_to_default() {
    let mut data = header_v2(0, 2);
    push_str_v2(&mut data, "general.alignment");
    data.push(8); // string tag: the wrong kind for an alignment
    push_str_v2(&mut data, "64");
    push_str_v2(&mut data, "pad");
    data.push(8);
    push_str_v2(&mut data, "xxxx");
    // the cursor ends at 84: the default alignment of 32 gives 96, where an
    // applied override of 64 would have given 128
    let g = Gguf::load(&data).unwrap();
    assert_eq!(g.tensor_data_position, 96);
}
