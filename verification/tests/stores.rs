use nbd_server::catalog::BlobKey;
use nbd_server::error::ServerError;
use nbd_server::storage::{
    blob_already_exists, byte_range_header, is_blob_already_exists, is_bucket_already_exists,
    is_create_collision, normalize_key_prefix, object_key_for_prefix, replacement_key,
    LocalBlobStore, PutStep, RandomBlobPut, BLOB_KEY_ATTEMPTS,
};

fn key(text: &str) -> BlobKey {
    BlobKey::new(text.to_string())
}

#[test]
fn normalize_key_prefix_accepts_empty_and_relative_prefixes() {
    assert_eq!(normalize_key_prefix(None).expect("missing prefix"), "");
    assert_eq!(normalize_key_prefix(Some("")).expect("empty prefix"), "");
    assert_eq!(
        normalize_key_prefix(Some("v0.1/blobs")).expect("relative prefix"),
        "v0.1/blobs/"
    );
    assert_eq!(
        normalize_key_prefix(Some("v0.1/blobs/")).expect("trailing slash"),
        "v0.1/blobs/"
    );
}

#[test]
fn normalize_key_prefix_rejects_ambiguous_paths() {
    for prefix in [
        "/v0.1/blobs",
        "v0.1//blobs",
        "v0.1/blobs//",
        "v0.1/./blobs",
        "v0.1/../blobs",
        "v0.1\\blobs",
        "v0.1\0blobs",
    ] {
        assert!(
            normalize_key_prefix(Some(prefix)).is_err(),
            "prefix {prefix:?} should be rejected",
        );
    }
}

#[test]
fn normal_prefix_is_stable() {
    let normal = normalize_key_prefix(Some(" a/b ")).expect("prefix");
    assert_eq!(
        normalize_key_prefix(Some(normal.as_str())).expect("again"),
        normal
    );
}

#[test]
fn object_key_appends_blob_key_to_normalized_prefix() {
    let key = key("abc123");

    assert_eq!(object_key_for_prefix("", &key), "abc123");
    assert_eq!(
        object_key_for_prefix("v0.1/blobs/", &key),
        "v0.1/blobs/abc123"
    );
}

#[test]
fn local_blobs_lie_directly_below_the_root() {
    let store = LocalBlobStore::new("/var/blobs".to_string());
    assert_eq!(store.root(), "/var/blobs");
    assert_eq!(store.blob_path(&key("abc123")).unwrap(), "/var/blobs/abc123");
    for bad in ["", ".", "a/b", "/abs"] {
        assert!(store.blob_path(&key(bad)).is_err(), "key {bad:?}");
    }
    assert_eq!(store.read_length(17).unwrap(), 17);
}

#[test]
fn range_headers_name_the_last_byte() {
    assert_eq!(byte_range_header(4, 0).unwrap(), None);
    assert_eq!(
        byte_range_header(4, 8).unwrap(),
        Some("bytes=4-11".to_string())
    );
    assert!(byte_range_header(u64::MAX, 2).is_err());
}

#[test]
fn store_codes_are_told_apart() {
    assert!(is_create_collision(Some("PreconditionFailed")));
    assert!(is_create_collision(Some("ConditionalRequestConflict")));
    assert!(!is_create_collision(Some("NoSuchBucket")));
    assert!(!is_create_collision(None));
    assert!(is_bucket_already_exists(Some("BucketAlreadyOwnedByYou")));
    assert!(is_bucket_already_exists(Some("BucketAlreadyExists")));
    assert!(!is_bucket_already_exists(None));
}

#[test]
fn random_puts_try_again_only_on_collision() {
    let mut put = RandomBlobPut::new();
    for _ in 0..BLOB_KEY_ATTEMPTS {
        let key = put.next_key().expect("another key");
        assert_eq!(key.as_str().len(), 36);
        let collision = blob_already_exists("create blob", &key);
        assert!(is_blob_already_exists(&collision));
        assert!(matches!(put.attempted(Err(collision)), PutStep::Retry));
    }
    assert!(put.next_key().is_err());

    let mut put = RandomBlobPut::new();
    put.next_key().expect("key");
    assert!(matches!(put.attempted(Ok(())), PutStep::Stored));
    let failure = ServerError::io("write blob", "disk full".to_string());
    assert!(!is_blob_already_exists(&failure));
    assert!(matches!(put.attempted(Err(failure)), PutStep::Failed(_)));
    assert_ne!(replacement_key().as_str(), replacement_key().as_str());
}
