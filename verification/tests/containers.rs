use blobsync::blob::{Blob, Location};
use blobsync::container::CurrentContainer;

fn blob(name: &str, digest: u8, location: Location) -> Blob {
    Blob::new(name.to_string(), digest as u64, None, [digest; 16], location)
}

fn locations(c: &CurrentContainer) -> Vec<Location> {
    c.blobs().iter().map(|b| b.location).collect()
}

fn names(c: &CurrentContainer) -> Vec<String> {
    c.blobs().iter().map(|b| b.name.clone()).collect()
}

#[test]
fn insert_new_blobs_appends_unknown_digests() {
    let mut c = CurrentContainer::new("photos".to_string());
    c.insert_new_blobs(vec![blob("a", 1, Location::Remote), blob("b", 2, Location::Remote)]);
    assert_eq!(names(&c), vec!["a", "b"]);
    assert_eq!(locations(&c), vec![Location::Remote, Location::Remote]);
}

#[test]
fn remote_then_local_becomes_synced() {
    let mut c = CurrentContainer::new("photos".to_string());
    c.insert_new_blobs(vec![blob("a", 1, Location::Remote), blob("b", 2, Location::Remote)]);
    c.insert_new_blobs(vec![blob("a-local", 1, Location::Local), blob("c", 3, Location::Local)]);
    assert_eq!(names(&c), vec!["a", "b", "c"]);
    assert_eq!(locations(&c), vec![Location::Synced, Location::Remote, Location::Local]);
}

#[test]
fn local_then_remote_becomes_synced() {
    let mut c = CurrentContainer::new("photos".to_string());
    c.insert_new_blobs(vec![blob("a", 1, Location::Local)]);
    c.insert_new_blobs(vec![blob("a", 1, Location::Remote)]);
    assert_eq!(locations(&c), vec![Location::Synced]);
}

#[test]
fn same_side_again_changes_nothing() {
    let mut c = CurrentContainer::new("photos".to_string());
    c.insert_new_blobs(vec![blob("a", 1, Location::Remote)]);
    c.insert_new_blobs(vec![blob("other-name", 1, Location::Remote)]);
    assert_eq!(names(&c), vec!["a"]);
    assert_eq!(locations(&c), vec![Location::Remote]);
}

#[test]
fn synced_stays_synced() {
    let mut c = CurrentContainer::new("photos".to_string());
    c.insert_new_blobs(vec![blob("a", 1, Location::Remote)]);
    c.insert_new_blobs(vec![blob("a", 1, Location::Local)]);
    c.insert_new_blobs(vec![blob("a", 1, Location::Remote), blob("a", 1, Location::Local)]);
    assert_eq!(locations(&c), vec![Location::Synced]);
    assert_eq!(c.blobs().len(), 1);
}

#[test]
fn equal_digests_in_one_batch_are_all_appended() {
    let mut c = CurrentContainer::new("photos".to_string());
    c.insert_new_blobs(vec![blob("a", 1, Location::Remote), blob("copy", 1, Location::Local)]);
    assert_eq!(names(&c), vec!["a", "copy"]);
    assert_eq!(locations(&c), vec![Location::Remote, Location::Local]);
}

#[test]
fn last_of_equal_digests_is_the_one_updated() {
    let mut c = CurrentContainer::new("photos".to_string());
    c.insert_new_blobs(vec![blob("a", 1, Location::Remote), blob("copy", 1, Location::Remote)]);
    c.insert_new_blobs(vec![blob("x", 1, Location::Local)]);
    assert_eq!(locations(&c), vec![Location::Remote, Location::Synced]);
}

#[test]
fn inserting_same_listing_twice_is_idempotent() {
    let mut c = CurrentContainer::new("photos".to_string());
    c.insert_new_blobs(vec![blob("a", 1, Location::Local)]);
    let listing = vec![blob("a", 1, Location::Remote), blob("b", 2, Location::Remote)];
    c.insert_new_blobs(listing.clone());
    let once = (names(&c), locations(&c));
    c.insert_new_blobs(listing);
    assert_eq!((names(&c), locations(&c)), once);
    assert_eq!(once.1, vec![Location::Synced, Location::Remote]);
}

#[test]
fn local_directory_candidates_replace_dashes() {
    let c = CurrentContainer::new("my-holiday-pics".to_string());
    assert_eq!(
        c.local_directory_candidates(),
        vec!["my holiday pics", "my-holiday-pics", "my_holiday_pics"]
    );
    let c = CurrentContainer::new("plain".to_string());
    assert_eq!(c.local_directory_candidates(), vec!["plain", "plain", "plain"]);
}
