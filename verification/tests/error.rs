//! Tests of errors.

use scry_index::Error;

#[test]
fn error_display() {
    assert_eq!(Error::EmptyData.to_string(), "input data is empty");
    assert_eq!(Error::NotSorted.to_string(), "input data is not sorted");
    assert_eq!(
        Error::InvalidKey {
            detail: "overflow".into()
        }
        .to_string(),
        "invalid key: overflow"
    );
}

#[test]
fn error_is_send_sync() {
    fn assert_send_sync<T: Send + Sync>() {}
    assert_send_sync::<Error>();
}
