use quic_framing::frame::{Frame, StreamIdBlockedFrame};
use quic_framing::streams::{Dir, Side, StreamRequest, Streams};

#[test]
fn client_bidi_allocations_start_at_zero_and_step_by_four() {
    let mut s = Streams::new(Side::Client);
    s.update_max_id(8);
    let first = s.init_send(Dir::Bidi).expect("category 0 is seeded for a client");
    assert_eq!(first.id, 0);
    let second = s.init_send(Dir::Bidi).expect("0 + 4 is still below the limit");
    assert_eq!(second.id, 4);
}

#[test]
fn unseeded_categories_never_allocate() {
    let mut client = Streams::new(Side::Client);
    client.update_max_id(6); // category 2: client-initiated unidirectional
    assert!(client.init_send(Dir::Uni).is_none());
    assert!(client.init_send(Dir::Uni).is_none());

    let mut server = Streams::new(Side::Server);
    server.update_max_id(5);
    server.update_max_id(7);
    assert!(server.init_send(Dir::Bidi).is_none());
    assert!(server.init_send(Dir::Uni).is_none());
}

#[test]
fn allocation_advances_while_the_advanced_id_is_within_the_limit() {
    let mut s = Streams::new(Side::Client);
    s.update_max_id(4);
    // 0 + 4 equals the limit, so the pointer still advances to 4
    assert_eq!(s.init_send(Dir::Bidi).unwrap().id, 0);
    assert_eq!(s.init_send(Dir::Bidi).unwrap().id, 4);
    // 4 + 4 exceeds the limit: the category is now exhausted
    assert!(s.init_send(Dir::Bidi).is_none());
}

#[test]
fn allocation_exhausts_when_the_limit_is_reached() {
    let mut s = Streams::new(Side::Client);
    // max stays 0: the first allocation succeeds, then the category is spent
    assert_eq!(s.init_send(Dir::Bidi).unwrap().id, 0);
    assert!(s.init_send(Dir::Bidi).is_none());
}

#[test]
fn remote_streams_respect_the_advertised_limit() {
    let mut s = Streams::new(Side::Server);
    s.update_max_id(4);
    // strictly above the limit of category 0: refused, nothing created
    assert!(s.received(8).is_none());
    // within the limit: created
    let handle = s.received(4).expect("id 4 is within the limit");
    assert_eq!(handle.id, 4);
    // an existing entry is returned even without re-checking the limit
    let again = s.received(4).expect("the entry already exists");
    assert_eq!(again.id, 4);
}

#[test]
fn request_stream_within_limit_completes_without_frames() {
    let mut s = Streams::new(Side::Client);
    s.update_max_id(8);
    assert_eq!(s.request_stream(4), StreamRequest::Ready);
    assert_eq!(s.queued(), None);
}

#[test]
fn request_stream_beyond_limit_queues_one_blocked_frame() {
    let mut s = Streams::new(Side::Client);
    s.update_max_id(4);
    let r = s.request_stream(8);
    assert_eq!(r, StreamRequest::Blocked { wake: false });
    assert_eq!(
        s.queued(),
        Some(Frame::StreamIdBlocked(StreamIdBlockedFrame(8)))
    );
    assert_eq!(s.queued(), None);
}

#[test]
fn blocked_request_wakes_a_registered_task() {
    let mut s = Streams::new(Side::Client);
    s.set_task();
    let r = s.request_stream(12);
    assert_eq!(r, StreamRequest::Blocked { wake: true });
}

#[test]
fn update_max_does_not_resolve_pending_waiters() {
    // The registry records the waiter and the new limit, but resolving
    // waiters that the limit now covers is left to the owner.
    let mut s = Streams::new(Side::Client);
    let r = s.request_stream(8);
    assert_eq!(r, StreamRequest::Blocked { wake: false });
    assert_eq!(s.open0.updates, vec![8]);
    s.update_max_id(12);
    assert_eq!(s.open0.updates, vec![8]);
    assert_eq!(s.open0.max, 12);
}

#[test]
fn offsets_are_read_and_written_through_handles() {
    let mut s = Streams::new(Side::Client);
    s.update_max_id(8);
    let handle = s.init_send(Dir::Bidi).unwrap();
    assert_eq!(handle.get_offset(&s), 0);
    handle.set_offset(&mut s, 4242);
    assert_eq!(handle.get_offset(&s), 4242);

    // a second stream keeps its own offset
    let other = s.init_send(Dir::Bidi).unwrap();
    assert_eq!(other.get_offset(&s), 0);
    assert_eq!(handle.get_offset(&s), 4242);
}

#[test]
fn update_max_targets_the_category_of_the_id() {
    let mut s = Streams::new(Side::Client);
    s.update_max_id(9); // category 1
    s.update_max_id(6); // category 2
    assert_eq!(s.open0.max, 0);
    assert_eq!(s.open1.max, 9);
    assert_eq!(s.open2.max, 6);
    assert_eq!(s.open3.max, 0);
}
