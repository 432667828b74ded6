use blobsync::blob::{
    local_blob, partition_by_size, remote_blob, remote_blobs, Blob, Location, RemoteBlobItem,
    RemoteBlobProperties, SIZE_THRESHOLD,
};

#[test]
fn blob_new_keeps_fields() {
    let b = Blob::new("a.png".to_string(), 7, Some(vec![1, 2, 3]), [9; 16], Location::Local);
    assert_eq!(b.name, "a.png");
    assert_eq!(b.length, 7);
    assert_eq!(b.bytes, Some(vec![1, 2, 3]));
    assert_eq!(b.md5, [9; 16]);
    assert_eq!(b.location, Location::Local);
}

#[test]
fn local_blob_digest_is_md5_of_bytes() {
    let b = local_blob("abc.txt".to_string(), b"abc".to_vec());
    assert_eq!(b.length, 3);
    assert_eq!(b.bytes, None);
    assert_eq!(b.location, Location::Local);
    assert_eq!(
        b.md5,
        [
            0x90, 0x01, 0x50, 0x98, 0x3c, 0xd2, 0x4f, 0xb0, 0xd6, 0x96, 0x3f, 0x7d, 0x28, 0xe1,
            0x7f, 0x72
        ]
    );
}

#[test]
fn local_blob_of_empty_file() {
    let b = local_blob("empty".to_string(), Vec::new());
    assert_eq!(b.length, 0);
    assert_eq!(
        b.md5,
        [
            0xd4, 0x1d, 0x8c, 0xd9, 0x8f, 0x00, 0xb2, 0x04, 0xe9, 0x80, 0x09, 0x98, 0xec, 0xf8,
            0x42, 0x7e
        ]
    );
}

#[test]
fn partition_by_size_splits_at_threshold() {
    assert_eq!(SIZE_THRESHOLD, 10 * 1024 * 1024);
    let lengths = vec![0, SIZE_THRESHOLD + 1, SIZE_THRESHOLD, 5, u64::MAX];
    let (small, large) = partition_by_size(&lengths);
    assert_eq!(small, vec![0, 2, 3]);
    assert_eq!(large, vec![1, 4]);
    let (small, large) = partition_by_size(&Vec::new());
    assert!(small.is_empty() && large.is_empty());
}

fn item(name: &str, props: Option<(u64, Vec<u8>)>) -> RemoteBlobItem {
    RemoteBlobItem {
        name: Some(name.to_string()),
        properties: props.map(|(l, m)| RemoteBlobProperties {
            content_length: Some(l),
            content_md5: Some(m),
        }),
    }
}

#[test]
fn remote_blob_reads_listing_entry() {
    let digest: Vec<u8> = (0u8..16).collect();
    let b = remote_blob(&item("x", Some((42, digest.clone())))).unwrap();
    assert_eq!(b.name, "x");
    assert_eq!(b.length, 42);
    assert_eq!(b.md5.to_vec(), digest);
    assert_eq!(b.location, Location::Remote);
    assert!(b.bytes.is_none());
    assert!(remote_blob(&item("y", None)).is_none());
}

#[test]
fn remote_blobs_skip_entries_without_properties() {
    let items = vec![
        item("a", Some((1, vec![1; 16]))),
        item("b", None),
        item("c", Some((3, vec![3; 16]))),
    ];
    let blobs = remote_blobs(&items);
    assert_eq!(blobs.len(), 2);
    assert_eq!(blobs[0].name, "a");
    assert_eq!(blobs[1].name, "c");
    assert_eq!(blobs[1].md5, [3; 16]);
}

#[test]
fn table_columns() {
    let mut b = Blob::new("short.txt".to_string(), 2048, None, [0; 16], Location::Remote);
    assert_eq!(b.status_label(), "Remote");
    assert_eq!(b.size_in_kb(), 2);
    assert_eq!(b.display_name(), "short.txt");
    b.location = Location::Local;
    assert_eq!(b.status_label(), "Local");
    b.location = Location::Synced;
    assert_eq!(b.status_label(), "Synced");
    b.length = 1023;
    assert_eq!(b.size_in_kb(), 0);
}

#[test]
fn display_name_cuts_after_thirty_bytes() {
    let b = Blob::new("abcdefghijklmnopqrstuvwxyz0123456789".to_string(), 0, None, [0; 16], Location::Local);
    assert_eq!(b.display_name(), "abcdefghijklmnopqrstuvwxyz0123");
    // 28 ASCII bytes and a two-byte character end exactly at byte 30
    let name = format!("{}é!", "a".repeat(28));
    let b = Blob::new(name, 0, None, [0; 16], Location::Local);
    assert_eq!(b.display_name(), format!("{}é", "a".repeat(28)));
}
