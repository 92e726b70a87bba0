use wenv::store::StoreError;

#[test]
fn store_error_kinds_are_distinct() {
    let kinds = vec![
        StoreError::StoreUnavailable,
        StoreError::UnsupportedValueType,
        StoreError::KeyNotFound,
        StoreError::PermissionDenied,
        StoreError::OtherStoreError,
    ];
    for (i, a) in kinds.iter().enumerate() {
        for (j, b) in kinds.iter().enumerate() {
            if i == j {
                assert_eq!(a, b);
            } else {
                assert_ne!(a, b);
            }
        }
    }
}
