use tcore::announce::{parse_announce_response, AnnounceError, TorrentResponse};
use tcore::decoder::DecodeError;

#[test]
fn failure_reason_is_reported() {
    let r = parse_announce_response(b"d14:failure reason9:not founde").unwrap();
    assert_eq!(r, TorrentResponse::Failed(b"not found".to_vec()));
}

#[test]
fn compact_peers_are_read() {
    let mut body = b"d8:intervali1800e5:peers12:".to_vec();
    body.extend_from_slice(&[10, 0, 0, 1, 0x1a, 0xe1, 192, 168, 1, 20, 0, 80]);
    body.push(b'e');
    match parse_announce_response(&body).unwrap() {
        TorrentResponse::Success(s) => {
            assert_eq!(s.interval(), 1800);
            let peers = s.peers();
            assert_eq!(peers.len(), 2);
            assert_eq!(peers[0].ip(), b"10.0.0.1");
            assert_eq!(peers[0].port(), 6881);
            assert_eq!(peers[1].ip(), b"192.168.1.20");
            assert_eq!(peers[1].port(), 80);
            assert!(peers[0].peer_id().is_none());
        }
        other => panic!("unexpected answer: {:?}", other),
    }
}

#[test]
fn dictionary_peers_are_read() {
    let body = b"d8:intervali60e5:peersld2:ip9:127.0.0.17:peer id3:abc4:porti6881eeee";
    match parse_announce_response(body).unwrap() {
        TorrentResponse::Success(s) => {
            assert_eq!(s.interval(), 60);
            let peers = s.peers();
            assert_eq!(peers.len(), 1);
            assert_eq!(peers[0].ip(), b"127.0.0.1");
            assert_eq!(peers[0].port(), 6881);
            assert_eq!(peers[0].peer_id(), Some(&b"abc".to_vec()));
        }
        other => panic!("unexpected answer: {:?}", other),
    }
}

#[test]
fn bad_answers_are_refused() {
    assert_eq!(parse_announce_response(b"i1e"), Err(AnnounceError::NotADictionary));
    assert_eq!(parse_announce_response(b"d5:peers0:e"), Err(AnnounceError::MissingInterval));
    assert_eq!(
        parse_announce_response(b"d8:intervali-1e5:peers0:e"),
        Err(AnnounceError::MissingInterval)
    );
    assert_eq!(
        parse_announce_response(b"d8:intervali5e5:peers5:abcdee"),
        Err(AnnounceError::InvalidPeers)
    );
    assert_eq!(
        parse_announce_response(b"d8:intervali5e5:peersli1eee"),
        Err(AnnounceError::InvalidPeers)
    );
    assert_eq!(
        parse_announce_response(b"d8:intervali5e5:peersld2:ip1:x4:porti70000eeee"),
        Err(AnnounceError::InvalidPeers)
    );
    assert_eq!(
        parse_announce_response(b"d8:interval"),
        Err(AnnounceError::Decode(DecodeError::UnexpectedEof))
    );
}
