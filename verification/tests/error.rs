use fs_apfs::error::ApfsError;
use fs_apfs::io;

#[test]
fn from_io_error_wraps_io_variant() {
    let io_err: io::Error = io::Error::new(io::ErrorKind::InvalidInput);
    let apfs_err: ApfsError = io_err.into();
    match apfs_err {
        ApfsError::Io(error) => {
            assert_eq!(error.kind(), io::ErrorKind::InvalidInput);
        }
        _ => panic!("expected ApfsError::Io"),
    }
}

#[test]
fn into_io_error_unwraps_io_variant() {
    let original: io::Error = io::Error::new(io::ErrorKind::InvalidData);
    let converted: io::Error = ApfsError::Io(original).into();
    assert_eq!(converted.kind(), io::ErrorKind::InvalidData);
}

#[test]
fn into_io_error_wraps_non_io_variant() {
    let converted: io::Error = ApfsError::Unsupported("fusion drives").into();
    assert_eq!(converted.kind(), io::ErrorKind::Other);
}

#[test]
fn io_kind_is_none_for_non_io_variant() {
    let err = ApfsError::Unsupported("snapshots");
    assert_eq!(err.io_kind(), None);
}

#[test]
fn io_kind_reports_underlying_kind() {
    let err = ApfsError::Io(io::Error::new(io::ErrorKind::UnexpectedEof));
    assert_eq!(
        err.io_kind(),
        Some(io::ErrorKind::UnexpectedEof)
    );
}

#[test]
fn byte_offset_is_always_none_for_apfs_errors() {
    assert_eq!(ApfsError::Unsupported("x").byte_offset(), None);
    assert_eq!(
        ApfsError::Io(io::Error::new(io::ErrorKind::Other)).byte_offset(),
        None
    );
}
