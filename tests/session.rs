use tcore::digest::{is_equal_sha1, is_equal_sha1_slice, make_sha1};
use tcore::session::{generate_peer_id, parse_handshake, tracker_key, Routes, SessionError};
use tcore::torrent::Torrent;
use tcore::worker::{
    backoff_secs, base_url, build_url, escape_hash, Command, TrackerState, Worker, WorkerAction,
    WorkerState,
};

fn handshake(info_hash: [u8; 20]) -> Vec<u8> {
    let mut b = vec![19u8];
    b.extend_from_slice(b"BitTorrent protocol");
    b.extend_from_slice(&[0u8; 8]);
    b.extend_from_slice(&info_hash);
    b.extend_from_slice(b"-XX0001-abcdefghijkl");
    b
}

#[test]
fn sha1_of_known_input() {
    let d = make_sha1(b"abc");
    let expected: [u8; 20] = [
        0xa9, 0x99, 0x3e, 0x36, 0x47, 0x06, 0x81, 0x6a, 0xba, 0x3e, 0x25, 0x71, 0x78, 0x50, 0xc2,
        0x6c, 0x9c, 0xd0, 0xd8, 0x9d,
    ];
    assert_eq!(d, expected);
    assert!(is_equal_sha1(&d, &expected));
    assert!(!is_equal_sha1(&d, &make_sha1(b"abd")));
    assert!(is_equal_sha1_slice(b"xy", b"xy"));
    assert!(!is_equal_sha1_slice(b"xy", b"xyz"));
}

#[test]
fn handshake_names_the_infohash() {
    let ih = [7u8; 20];
    assert_eq!(parse_handshake(&handshake(ih)), Some(ih));
    let mut bad = handshake(ih);
    bad[0] = 18;
    assert_eq!(parse_handshake(&bad), None);
    let mut bad_name = handshake(ih);
    bad_name[5] = b'x';
    assert_eq!(parse_handshake(&bad_name), None);
    assert_eq!(parse_handshake(&handshake(ih)[..67]), None);
}

#[test]
fn routes_refuse_a_second_entry() {
    let mut r: Routes<u32> = Routes::new();
    assert_eq!(r.register([1u8; 20], 10), Ok(()));
    assert_eq!(r.register([2u8; 20], 20), Ok(()));
    assert_eq!(r.register([1u8; 20], 30), Err(SessionError::TrackerDuplicate));
    assert_eq!(r.len(), 2);
    assert_eq!(r.lookup(&[1u8; 20]), Some(&10));
    assert_eq!(r.unregister(&[1u8; 20]), Some(10));
    assert!(!r.contains(&[1u8; 20]));
    assert_eq!(r.unregister(&[1u8; 20]), None);
    assert_eq!(r.register([1u8; 20], 40), Ok(()));
    assert_eq!(r.lookup(&[1u8; 20]), Some(&40));
}

#[test]
fn url_escaping_of_a_digest() {
    let mut h = [0u8; 20];
    h[0] = b'a';
    h[1] = b' ';
    h[2] = 0xff;
    h[3] = b'.';
    let e = String::from_utf8(escape_hash(&h)).unwrap();
    assert!(e.starts_with("a+%FF.%00"));
    assert_eq!(e.len(), 1 + 1 + 3 + 1 + 16 * 3);
}

#[test]
fn announce_urls() {
    let base = base_url("http://t/a", &[b'x'; 20], &[b'y'; 20], 6881);
    let s = String::from_utf8(base.clone()).unwrap();
    assert_eq!(
        s,
        format!("http://t/a?info_hash={}&peer_id={}&port=6881", "x".repeat(20), "y".repeat(20))
    );
    let u = String::from_utf8(build_url(&base, 1, 22, 0, TrackerState::Started)).unwrap();
    assert!(u.ends_with("&port=6881&uploaded=1&downloaded=22&left=0&event=started"));
    let u = String::from_utf8(build_url(&base, 0, 0, 5, TrackerState::Empty)).unwrap();
    assert!(u.ends_with("&uploaded=0&downloaded=0&left=5"));
}

#[test]
fn backoff_doubles_up_to_a_minute() {
    let got: Vec<u64> = (0..10).map(backoff_secs).collect();
    assert_eq!(got, vec![0, 1, 2, 4, 8, 16, 32, 60, 60, 60]);
}

#[test]
fn worker_announces_started_then_nothing() {
    let mut w = Worker::new("http://t", &[1u8; 20], &[2u8; 20], 1, 10);
    assert_eq!(w.plan(), WorkerAction::Announce(TrackerState::Started));
    w.announce_succeeded(TrackerState::Started, 30);
    assert_eq!(w.plan(), WorkerAction::Sleep(30_000));
    w.slept();
    assert_eq!(w.plan(), WorkerAction::Announce(TrackerState::Empty));
}

#[test]
fn worker_with_nothing_left_announces_completed() {
    let mut w = Worker::new("http://t", &[1u8; 20], &[2u8; 20], 1, 0);
    w.announce_succeeded(TrackerState::Started, 0);
    assert_eq!(w.plan(), WorkerAction::Announce(TrackerState::Completed));
    w.announce_succeeded(TrackerState::Completed, 0);
    assert_eq!(w.plan(), WorkerAction::Announce(TrackerState::Empty));
}

#[test]
fn worker_pause_resume_abort() {
    let mut w = Worker::new("http://t", &[1u8; 20], &[2u8; 20], 1, 10);
    w.handle_cmd(Command::Pause);
    assert_eq!(w.plan(), WorkerAction::Sleep(500));
    w.handle_cmd(Command::Resume);
    assert_eq!(w.state(), WorkerState::Running);
    w.announce_succeeded(TrackerState::Started, 1800);
    w.handle_cmd(Command::Abort);
    assert_eq!(w.plan(), WorkerAction::Announce(TrackerState::Stopped));
    w.announce_failed(TrackerState::Stopped);
    assert_eq!(w.plan(), WorkerAction::Exit);
    w.handle_cmd(Command::Resume);
    assert_eq!(w.state(), WorkerState::Aborted);
}

#[test]
fn worker_closed_channel_before_any_announce_exits() {
    let mut w = Worker::new("http://t", &[1u8; 20], &[2u8; 20], 1, 10);
    w.commands_closed();
    assert_eq!(w.plan(), WorkerAction::Exit);
}

#[test]
fn worker_gives_up_after_repeated_failures() {
    let mut w = Worker::new("http://t", &[1u8; 20], &[2u8; 20], 1, 10);
    for _ in 0..7 {
        w.announce_failed(TrackerState::Started);
        assert_eq!(w.state(), WorkerState::Running);
    }
    assert_eq!(w.plan(), WorkerAction::Sleep(60_000));
    w.announce_failed(TrackerState::Started);
    assert_eq!(w.state(), WorkerState::Aborted);
    assert_eq!(w.plan(), WorkerAction::Exit);
}

#[test]
fn peer_id_digests_time_tag_and_salt() {
    let salt = [9u8; 16];
    let mut input = b"-12|tcore|".to_vec();
    input.extend_from_slice(&salt);
    assert_eq!(generate_peer_id(-12, &salt), make_sha1(&input));
    let mut input = b"1700000000000000000|tcore|".to_vec();
    input.extend_from_slice(&salt);
    assert_eq!(generate_peer_id(1_700_000_000_000_000_000, &salt), make_sha1(&input));
}

#[test]
fn tracker_key_is_the_infohash() {
    let data = b"d8:announce14:http://tracker4:infod4:name4:test12:piece lengthi16384e6:pieces20:123456789012345678906:lengthi123eee";
    let t = Torrent::from_bytes(data).unwrap();
    assert_eq!(tracker_key(&t), Ok(t.info_hash().unwrap()));
}
