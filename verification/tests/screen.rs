use blobsync::blob::{Blob, Location};
use blobsync::screen::{poll_for_messages, MainState, Message};

fn blob(name: &str, digest: u8, location: Location) -> Blob {
    Blob::new(name.to_string(), 0, None, [digest; 16], location)
}

#[test]
fn new_state_is_empty() {
    let s = MainState::new();
    assert!(s.containers.is_empty());
    assert!(s.current_container.is_none());
    assert!(s.displayed_blob.is_none());
}

#[test]
fn containers_message_replaces_list() {
    let mut s = MainState::new();
    poll_for_messages(&mut s, vec![
        Message::Containers(vec!["a".to_string()]),
        Message::Containers(vec!["b".to_string(), "c".to_string()]),
    ]);
    assert_eq!(s.containers, vec!["b", "c"]);
}

#[test]
fn listing_after_switch_is_shown() {
    let mut s = MainState::new();
    s.displayed_blob = Some(blob("old", 9, Location::Remote));
    s.switch_to_container("photos");
    assert!(s.displayed_blob.is_none());
    poll_for_messages(&mut s, vec![
        Message::Blobs { container: "photos".to_string(), blobs: vec![blob("a", 1, Location::Remote)], location: Location::Remote },
        Message::Blobs { container: "photos".to_string(), blobs: vec![blob("a", 1, Location::Local), blob("b", 2, Location::Local)], location: Location::Local },
    ]);
    let c = s.current_container.as_ref().unwrap();
    assert_eq!(c.name(), "photos");
    let locs: Vec<Location> = c.blobs().iter().map(|b| b.location).collect();
    assert_eq!(locs, vec![Location::Synced, Location::Local]);
}

#[test]
fn listing_for_other_container_is_disregarded() {
    let mut s = MainState::new();
    poll_for_messages(&mut s, vec![Message::Blobs { container: "x".to_string(), blobs: vec![blob("a", 1, Location::Remote)], location: Location::Remote }]);
    assert!(s.current_container.is_none());
    s.switch_to_container("photos");
    poll_for_messages(&mut s, vec![Message::Blobs { container: "Photos".to_string(), blobs: vec![blob("a", 1, Location::Remote)], location: Location::Remote }]);
    assert!(s.current_container.as_ref().unwrap().blobs().is_empty());
}

#[test]
fn blob_with_bytes_is_displayed() {
    let mut s = MainState::new();
    let b = Blob::new("pic".to_string(), 3, Some(vec![1, 2, 3]), [1; 16], Location::Remote);
    poll_for_messages(&mut s, vec![Message::BlobWithBytes(b)]);
    let shown = s.displayed_blob.unwrap();
    assert_eq!(shown.name, "pic");
    assert_eq!(shown.bytes, Some(vec![1, 2, 3]));
}

#[test]
fn apply_message_one_at_a_time() {
    let mut s = MainState::new();
    s.apply_message(Message::Containers(vec!["one".to_string()]));
    assert_eq!(s.containers, vec!["one"]);
}

#[test]
fn preview_uri_needs_container_and_bytes() {
    let mut s = MainState::new();
    assert_eq!(s.preview_uri(), None);
    s.switch_to_container("photos");
    assert_eq!(s.preview_uri(), None);
    s.displayed_blob = Some(Blob::new("cat.png".to_string(), 1, None, [0; 16], Location::Remote));
    assert_eq!(s.preview_uri(), None);
    s.displayed_blob = Some(Blob::new("cat.png".to_string(), 1, Some(vec![0]), [0; 16], Location::Remote));
    assert_eq!(s.preview_uri().as_deref(), Some("bytes://photos/cat.png"));
}
