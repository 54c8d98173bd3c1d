use tcore::digest::make_sha1;
use tcore::token::TokenKind;
use tcore::torrent::{Torrent, TorrentBuilder, TorrentBuilderStateKind, TorrentFileError, TorrentKey};

fn concat(parts: &[&[u8]]) -> Vec<u8> {
    parts.concat()
}

fn minimal_info() -> Vec<u8> {
    concat(&[
        b"d",
        b"4:name4:test",
        b"12:piece lengthi16384e",
        b"6:pieces20:12345678901234567890",
        b"6:lengthi123e",
        b"e",
    ])
}

#[test]
fn get_info_slice_returns_info_dict_bytes() {
    let info_bytes = minimal_info();

    let data = concat(&[
        b"d",
        b"8:announce14:http://tracker",
        b"4:info",
        info_bytes.as_slice(),
        b"e",
    ]);

    let mut builder = TorrentBuilder::new(&data);
    let info_begin = data.len() - info_bytes.len() - 1;
    builder.set_info_begin(info_begin);

    let end_pos = info_begin + info_bytes.len() - 1;
    assert_eq!(builder.get_info_slice(end_pos), info_bytes.as_slice());
}

#[test]
fn unknown_root_keys_are_ignored() {
    let data = concat(&[
        b"d",
        b"8:announce14:http://tracker",
        b"5:extra",
        b"l",
        b"i1e",
        b"i2e",
        b"e",
        b"4:infod",
        b"4:name4:test",
        b"12:piece lengthi16384e",
        b"6:pieces20:12345678901234567890",
        b"6:lengthi123e",
        b"e",
        b"e",
    ]);

    let res = Torrent::from_bytes(&data);
    assert!(res.is_ok(), "unexpected error: {:?}", res.err().unwrap());
}

#[test]
fn unknown_info_keys_are_ignored() {
    let data = concat(&[
        b"d",
        b"8:announce14:http://tracker",
        b"4:infod",
        b"4:name4:test",
        b"12:piece lengthi16384e",
        b"6:pieces20:12345678901234567890",
        b"6:lengthi123e",
        b"3:extd3:foo3:baree",
        b"e",
        b"e",
    ]);

    let res = Torrent::from_bytes(&data);
    assert!(res.is_ok(), "unexpected error: {:?}", res.err().unwrap());
}

#[test]
fn unknown_file_keys_are_ignored() {
    let data = concat(&[
        b"d",
        b"8:announce14:http://tracker",
        b"4:infod",
        b"4:name4:test",
        b"12:piece lengthi16384e",
        b"6:pieces20:12345678901234567890",
        b"5:filesl",
        b"d",
        b"6:lengthi10e",
        b"4:pathl3:foo3:bare",
        b"5:extrad3:fooi1ee",
        b"e",
        b"e",
        b"e",
        b"e",
    ]);

    let res = Torrent::from_bytes(&data);
    assert!(res.is_ok(), "unexpected error: {:?}", res.err().unwrap());
    let t = res.unwrap();
    let files = t.files().unwrap();
    assert_eq!(files.len(), 1);
    assert_eq!(files[0].length(), 10);
    assert_eq!(files[0].path(), &vec![String::from("foo"), String::from("bar")]);
}

#[test]
fn error_on_files_and_length_in_info() {
    let data = concat(&[
        b"d",
        b"8:announce14:http://tracker",
        b"4:infod",
        b"4:name4:test",
        b"12:piece lengthi16384e",
        b"6:pieces20:12345678901234567890",
        b"6:lengthi123e",
        b"5:filesle",
        b"e",
        b"e",
    ]);

    let err = Torrent::from_bytes(&data).unwrap_err();
    assert!(matches!(err, TorrentFileError::MutualExclusiveKeys));
}

#[test]
fn error_on_invalid_announce_type() {
    let data = concat(&[
        b"d",
        b"8:announcei1e",
        b"4:infod",
        b"4:name4:test",
        b"12:piece lengthi16384e",
        b"6:pieces20:12345678901234567890",
        b"6:lengthi123e",
        b"e",
        b"e",
    ]);

    let err = Torrent::from_bytes(&data).unwrap_err();
    assert!(matches!(
        err,
        TorrentFileError::UnexpectedTypeForKey {
            key: TorrentKey::Announce,
            ..
        }
    ));
}

#[test]
fn error_on_invalid_file_path_type() {
    let data = concat(&[
        b"d",
        b"8:announce14:http://tracker",
        b"4:infod",
        b"4:name4:test",
        b"12:piece lengthi16384e",
        b"6:pieces20:12345678901234567890",
        b"5:filesl",
        b"d",
        b"6:lengthi10e",
        b"4:pathi1e",
        b"e",
        b"e",
        b"e",
        b"e",
    ]);

    let err = Torrent::from_bytes(&data).unwrap_err();
    assert!(matches!(
        err,
        TorrentFileError::UnexpectedTypeForKey {
            key: TorrentKey::FilesPath,
            ..
        }
    ));
}

#[test]
fn error_on_missing_info_dict() {
    let data = concat(&[b"d", b"8:announce14:http://tracker", b"e"]);

    let res = Torrent::from_bytes(&data);
    assert!(res.is_err(), "expected error for missing info dict");
    assert_eq!(
        res.unwrap_err(),
        TorrentFileError::MissingRequiredKey { state: TorrentBuilderStateKind::MetaInfo, key: TorrentKey::Info }
    );
}

#[test]
fn error_on_missing_pieces() {
    let data = concat(&[
        b"d",
        b"8:announce14:http://tracker",
        b"4:infod",
        b"4:name4:test",
        b"12:piece lengthi16384e",
        b"6:lengthi123e",
        b"e",
        b"e",
    ]);

    let res = Torrent::from_bytes(&data);
    assert!(res.is_err(), "expected error for missing pieces");
    assert_eq!(
        res.unwrap_err(),
        TorrentFileError::MissingRequiredKey { state: TorrentBuilderStateKind::Info, key: TorrentKey::InfoPieces }
    );
}

#[test]
fn minimal_single_file_torrent_and_its_infohash() {
    let info = minimal_info();
    let data = concat(&[b"d", b"8:announce14:http://tracker", b"4:info", info.as_slice(), b"e"]);
    let t = Torrent::from_bytes(&data).unwrap();
    assert_eq!(t.announce(), "http://tracker");
    assert_eq!(t.name(), "test");
    assert_eq!(t.piece_length(), 16384);
    assert_eq!(t.pieces(), b"12345678901234567890");
    assert_eq!(t.length(), Some(123));
    assert!(t.files().is_none());
    assert_eq!(t.info_hash(), Some(make_sha1(&info)));
    assert_ne!(t.info_hash(), Some(make_sha1(&data)));
    let (begin, end) = t.info_span();
    assert_eq!(begin, 1 + b"8:announce14:http://tracker".len() + b"4:info".len());
    assert_eq!(end, data.len() - 2);
    assert_eq!(&data[begin..=end], info.as_slice());
}

#[test]
fn unknown_top_level_key_keeps_the_infohash() {
    let info = minimal_info();
    let plain = concat(&[b"d", b"8:announce14:http://tracker", b"4:info", info.as_slice(), b"e"]);
    let extra = concat(&[
        b"d",
        b"8:announce14:http://tracker",
        b"5:extrali1ei2ee",
        b"4:info",
        info.as_slice(),
        b"e",
    ]);
    let a = Torrent::from_bytes(&plain).unwrap();
    let b = Torrent::from_bytes(&extra).unwrap();
    assert_eq!(a.info_hash(), b.info_hash());
    assert_eq!(b.info_span().0, a.info_span().0 + b"5:extrali1ei2ee".len());
}

#[test]
fn pieces_of_nineteen_bytes() {
    let data = concat(&[
        b"d",
        b"8:announce14:http://tracker",
        b"4:infod",
        b"4:name4:test",
        b"12:piece lengthi16384e",
        b"6:pieces19:1234567890123456789",
        b"6:lengthi123e",
        b"e",
        b"e",
    ]);
    assert_eq!(Torrent::from_bytes(&data).unwrap_err(), TorrentFileError::InvalidPiecesLength(19));
}

#[test]
fn missing_opener_and_bad_keys() {
    assert_eq!(Torrent::from_bytes(b"le").unwrap_err(), TorrentFileError::MissingMetaInfoOpener);
    assert_eq!(
        Torrent::from_bytes(b"di1ei2ee").unwrap_err(),
        TorrentFileError::ExpectedKey { state: TorrentBuilderStateKind::MetaInfo, got: TokenKind::Int }
    );
    assert_eq!(
        Torrent::from_bytes(b"d5:extrae").unwrap_err(),
        TorrentFileError::UnexpectedObjectClosure
    );
    assert_eq!(
        Torrent::from_bytes(b"d8:announce2:\xff\xfee").unwrap_err(),
        TorrentFileError::Utf8
    );
}

#[test]
fn missing_announce_and_name() {
    let no_announce = concat(&[b"d", b"4:info", minimal_info().as_slice(), b"e"]);
    assert_eq!(
        Torrent::from_bytes(&no_announce).unwrap_err(),
        TorrentFileError::MissingRequiredKey { state: TorrentBuilderStateKind::MetaInfo, key: TorrentKey::Announce }
    );
    let no_name = concat(&[
        b"d",
        b"8:announce14:http://tracker",
        b"4:infod",
        b"12:piece lengthi16384e",
        b"6:pieces20:12345678901234567890",
        b"6:lengthi123e",
        b"e",
        b"e",
    ]);
    assert_eq!(
        Torrent::from_bytes(&no_name).unwrap_err(),
        TorrentFileError::MissingRequiredKey { state: TorrentBuilderStateKind::Info, key: TorrentKey::InfoName }
    );
}

#[test]
fn multi_file_torrent() {
    let data = concat(&[
        b"d",
        b"8:announce14:http://tracker",
        b"4:infod",
        b"5:filesl",
        b"d6:lengthi10e4:pathl1:a1:bee",
        b"d6:lengthi20e4:pathl1:cee",
        b"e",
        b"4:name4:test",
        b"12:piece lengthi16384e",
        b"6:pieces20:12345678901234567890",
        b"e",
        b"e",
    ]);
    let t = Torrent::from_bytes(&data).unwrap();
    let files = t.files().unwrap();
    assert_eq!(files.len(), 2);
    assert_eq!(files[0].length(), 10);
    assert_eq!(files[1].length(), 20);
    assert_eq!(files[1].path(), &vec![String::from("c")]);
    assert_eq!(t.length(), None);
}

#[test]
fn total_length_of_single_and_multi_file() {
    let single = concat(&[b"d", b"8:announce14:http://tracker", b"4:info", minimal_info().as_slice(), b"e"]);
    assert_eq!(Torrent::from_bytes(&single).unwrap().total_length(), 123);
    let multi = concat(&[
        b"d",
        b"8:announce14:http://tracker",
        b"4:infod",
        b"5:filesl",
        b"d6:lengthi10e4:pathl1:aee",
        b"d6:lengthi20e4:pathl1:bee",
        b"e",
        b"4:name4:test",
        b"12:piece lengthi16384e",
        b"6:pieces20:12345678901234567890",
        b"e",
        b"e",
    ]);
    assert_eq!(Torrent::from_bytes(&multi).unwrap().total_length(), 30);
}

#[test]
fn negative_lengths_are_refused() {
    let data = concat(&[
        b"d",
        b"8:announce14:http://tracker",
        b"4:infod",
        b"4:name4:test",
        b"12:piece lengthi16384e",
        b"6:pieces20:12345678901234567890",
        b"6:lengthi-1e",
        b"e",
        b"e",
    ]);
    assert_eq!(
        Torrent::from_bytes(&data).unwrap_err(),
        TorrentFileError::UnexpectedTypeForKey { key: TorrentKey::InfoLength, expected: TokenKind::Int, got: TokenKind::Int }
    );
}
