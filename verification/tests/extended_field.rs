use fs_apfs::error::ApfsError;
use fs_apfs::extended_field::{DREC_EXT_TYPE_SIBLING_ID, ExtendedFields, INO_EXT_TYPE_DOCUMENT_ID, INO_EXT_TYPE_DSTREAM, INO_EXT_TYPE_NAME, INO_EXT_TYPE_SPARSE_BYTES, X_FIELD_SIZE, XfFlags};

/// Rounds up to a multiple of eight.
fn align8(value: usize) -> usize {
    value.wrapping_add(7) & !7
}

/// Builds an `xf_blob_t` region from `(type, flags, data)` fields,
/// eight-byte-aligning each value as APFS does.
fn blob(fields: &[(u8, u8, Vec<u8>)]) -> Vec<u8> {
    let mut region = Vec::new();
    region.extend_from_slice(
        &u16::try_from(fields.len())
            .expect("the test fixture value fits in u16")
            .to_le_bytes(),
    );
    let used: usize = fields.len() * X_FIELD_SIZE
        + fields
            .iter()
            .map(|(_, _, d)| align8(d.len()))
            .sum::<usize>();
    region.extend_from_slice(
        &u16::try_from(used)
            .expect("the test fixture value fits in u16")
            .to_le_bytes(),
    );
    for (ty, flags, data) in fields {
        region.push(*ty);
        region.push(*flags);
        region.extend_from_slice(
            &u16::try_from(data.len())
                .expect("the test fixture value fits in u16")
                .to_le_bytes(),
        );
    }
    for (_, _, data) in fields {
        region.extend_from_slice(data);
        region.resize(region.len() + (align8(data.len()) - data.len()), 0);
    }
    region
}

#[test]
fn empty_region_parses_to_no_fields() {
    assert!(ExtendedFields::parse(&[]).unwrap().fields.is_empty());
}

#[test]
fn parses_inode_name_and_dstream_fields() {
    let region = blob(&[
        (
            INO_EXT_TYPE_NAME,
            XfFlags::SYSTEM_FIELD,
            b"hello\0".to_vec(),
        ),
        (INO_EXT_TYPE_DSTREAM, 0, vec![0xAB; 40]),
    ]);
    let xf = ExtendedFields::parse(&region).unwrap();
    assert_eq!(xf.fields.len(), 2);
    assert_eq!(xf.inode_name(), Some(b"hello\0".as_slice()));
    assert_eq!(xf.dstream(), Some([0xAB; 40].as_slice()));
    assert!(xf.fields[0].flags.contains(XfFlags::SYSTEM_FIELD));
}

#[test]
fn second_value_is_eight_byte_aligned() {
    // A 6-byte first value is padded to 8 before the second value.
    let region = blob(&[
        (INO_EXT_TYPE_DOCUMENT_ID, 0, vec![1, 2, 3, 4, 5, 6]),
        (INO_EXT_TYPE_SPARSE_BYTES, 0, vec![9, 9, 9, 9, 9, 9, 9, 9]),
    ]);
    let xf = ExtendedFields::parse(&region).unwrap();
    assert_eq!(
        xf.field(INO_EXT_TYPE_DOCUMENT_ID).unwrap().data,
        vec![1, 2, 3, 4, 5, 6]
    );
    assert_eq!(
        xf.field(INO_EXT_TYPE_SPARSE_BYTES).unwrap().data,
        vec![9; 8]
    );
}

#[test]
fn drec_sibling_id_field_is_addressable() {
    let region = blob(&[(DREC_EXT_TYPE_SIBLING_ID, 0, 42u64.to_le_bytes().to_vec())]);
    let xf = ExtendedFields::parse(&region).unwrap();
    let field = xf.field(DREC_EXT_TYPE_SIBLING_ID).unwrap();
    assert_eq!(
        u64::from_le_bytes(field.data.clone().try_into().unwrap()),
        42
    );
}

#[test]
fn descriptors_past_the_region_are_rejected() {
    // Header claims 10 fields but the region holds none.
    let region = [10u8, 0, 0, 0];
    assert!(matches!(
        ExtendedFields::parse(&region),
        Err(ApfsError::Malformed { .. })
    ));
}

#[test]
fn value_past_the_region_is_rejected() {
    // One descriptor (xf_used_data 4, covering just the descriptor)
    // claiming a 200-byte value with no data behind it.
    let region = [1u8, 0, 4, 0, INO_EXT_TYPE_NAME, 0, 200, 0];
    assert!(matches!(
        ExtendedFields::parse(&region),
        Err(ApfsError::Malformed { .. })
    ));
}

#[test]
fn sparse_byte_count_returns_the_stored_value() {
    // INO_EXT_TYPE_SPARSE_BYTES carries a little-endian u64; the helper
    // must return that exact value, distinguishing it from None/0/1.
    let region = blob(&[(
        INO_EXT_TYPE_SPARSE_BYTES,
        0,
        12_345u64.to_le_bytes().to_vec(),
    )]);
    let xf = ExtendedFields::parse(&region).unwrap();
    assert_eq!(xf.sparse_byte_count(), Some(12_345));
}

#[test]
fn sparse_byte_count_is_none_when_the_field_is_absent() {
    let region = blob(&[(INO_EXT_TYPE_DOCUMENT_ID, 0, vec![1, 2, 3, 4])]);
    let xf = ExtendedFields::parse(&region).unwrap();
    assert_eq!(xf.sparse_byte_count(), None);
}

#[test]
fn trailing_slack_past_xf_used_data_is_not_consumed() {
    // A valid one-field blob followed by 8 bytes of slack. A descriptor
    // size reaching into the slack must be rejected, not silently read.
    let mut region = blob(&[(INO_EXT_TYPE_DOCUMENT_ID, 0, vec![1, 2, 3, 4])]);
    let blob_len = region.len();
    region.extend_from_slice(&[0xFF; 8]);
    // The blob still parses: only the declared `xf_used_data` is used.
    let xf = ExtendedFields::parse(&region).unwrap();
    assert_eq!(
        xf.field(INO_EXT_TYPE_DOCUMENT_ID).unwrap().data,
        vec![1, 2, 3, 4]
    );

    // Widen the field's declared size to reach into the slack region.
    region[6..8].copy_from_slice(
        &u16::try_from(blob_len)
            .expect("the test fixture value fits in u16")
            .to_le_bytes(),
    );
    assert!(matches!(
        ExtendedFields::parse(&region),
        Err(ApfsError::Malformed { .. })
    ));
}
