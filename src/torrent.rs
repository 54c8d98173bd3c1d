use vstd::prelude::*;
use vstd::utf8::{valid_utf8, decode_utf8};
use crate::token::{SToken, Token, TokenError, TokenKind, Tokenizer, token_at, kind_of, digits_value, find_from};
use crate::digest::{sha1_of, make_sha1};

verus! {

broadcast use vstd::std_specs::vec::group_vec_axioms, vstd::seq::group_seq_axioms;

/// The keys of a metainfo file that the reader knows.
#[derive(Debug, Clone, Copy, PartialEq, Eq, Structural)]
pub enum TorrentKey {
    Announce,
    Info,
    InfoName,
    InfoPieceLength,
    InfoPieces,
    InfoLength,
    InfoFiles,
    FilesLength,
    FilesPath,
}

/// Where the reader of a metainfo file stands.
#[derive(Debug, Clone, Copy, PartialEq, Eq, Structural)]
pub enum TorrentBuilderStateKind {
    Begin,
    MetaInfo,
    Info,
    Files,
    SingularFile,
    SingularFilePath,
    Finished,
}

/// Why a metainfo file was refused.
#[derive(Debug, Clone, Copy, PartialEq, Eq, Structural)]
pub enum TorrentFileError {
    Decode(TokenError),
    ExpectedKey { state: TorrentBuilderStateKind, got: TokenKind },
    MissingRequiredKey { state: TorrentBuilderStateKind, key: TorrentKey },
    MutualExclusiveKeys,
    MissingMetaInfoOpener,
    UnexpectedTypeForKey { key: TorrentKey, expected: TokenKind, got: TokenKind },
    UnexpectedObjectClosure,
    Utf8,
    InvalidPiecesLength(usize),
}

pub struct FileModel {
    pub length: int,
    pub path: Seq<Seq<char>>,
}

pub struct InfoModel {
    pub info_hash: Seq<u8>,
    /// Offsets of the `d` and of the `e` of the `info` dictionary.
    pub begin: int,
    pub end: int,
    pub name: Seq<char>,
    pub piece_length: int,
    pub pieces: Seq<u8>,
    pub length: Option<int>,
    pub files: Option<Seq<FileModel>>,
}

pub struct TorrentModel {
    pub announce: Seq<char>,
    pub info: InfoModel,
}

/// The reader's state: where it stands, where the `info` dictionary
/// began, whether that dictionary was closed, and what was read so far.
pub struct BuildState {
    pub phase: TorrentBuilderStateKind,
    pub info_begin: int,
    pub info_done: bool,
    pub t: TorrentModel,
}

pub open spec fn key_announce() -> Seq<u8> {
    seq![97u8, 110, 110, 111, 117, 110, 99, 101]
}

pub open spec fn key_info() -> Seq<u8> {
    seq![105u8, 110, 102, 111]
}

pub open spec fn key_name() -> Seq<u8> {
    seq![110u8, 97, 109, 101]
}

pub open spec fn key_piece_length() -> Seq<u8> {
    seq![112u8, 105, 101, 99, 101, 32, 108, 101, 110, 103, 116, 104]
}

pub open spec fn key_pieces() -> Seq<u8> {
    seq![112u8, 105, 101, 99, 101, 115]
}

pub open spec fn key_length() -> Seq<u8> {
    seq![108u8, 101, 110, 103, 116, 104]
}

pub open spec fn key_files() -> Seq<u8> {
    seq![102u8, 105, 108, 101, 115]
}

pub open spec fn key_path() -> Seq<u8> {
    seq![112u8, 97, 116, 104]
}

pub open spec fn empty_info() -> InfoModel {
    InfoModel {
        info_hash: Seq::new(20, |i: int| 0u8),
        begin: 0,
        end: 0,
        name: Seq::empty(),
        piece_length: 0,
        pieces: Seq::empty(),
        length: None,
        files: None,
    }
}

pub open spec fn initial_state() -> BuildState {
    BuildState {
        phase: TorrentBuilderStateKind::Begin,
        info_begin: 0,
        info_done: false,
        t: TorrentModel { announce: Seq::empty(), info: empty_info() },
    }
}

pub open spec fn tok(b: Seq<u8>, pos: int) -> Result<(SToken, int), TorrentFileError> {
    match token_at(b, pos) {
        Ok(x) => Ok(x),
        Err(e) => Err(TorrentFileError::Decode(e)),
    }
}

pub open spec fn text_of(bytes: Seq<u8>) -> Result<Seq<char>, TorrentFileError> {
    if valid_utf8(bytes) {
        Ok(decode_utf8(bytes))
    } else {
        Err(TorrentFileError::Utf8)
    }
}

pub open spec fn wrong_type(key: TorrentKey, expected: TokenKind, t: SToken) -> TorrentFileError {
    TorrentFileError::UnexpectedTypeForKey { key, expected, got: kind_of(t) }
}

/// The value of `key` must be a byte string.
pub open spec fn expect_string_spec(b: Seq<u8>, pos: int, key: TorrentKey) -> Result<(Seq<u8>, int), TorrentFileError> {
    match tok(b, pos) {
        Err(e) => Err(e),
        Ok((SToken::Bytes(s), next)) => Ok((s, next)),
        Ok((t, _)) => Err(wrong_type(key, TokenKind::String, t)),
    }
}

/// The value of `key` must be an integer, and not a negative one.
pub open spec fn expect_count_spec(b: Seq<u8>, pos: int, key: TorrentKey) -> Result<(int, int), TorrentFileError> {
    match tok(b, pos) {
        Err(e) => Err(e),
        Ok((SToken::Int(i), next)) => if i >= 0 {
            Ok((i, next))
        } else {
            Err(wrong_type(key, TokenKind::Int, SToken::Int(i)))
        },
        Ok((t, _)) => Err(wrong_type(key, TokenKind::Int, t)),
    }
}

/// The value of `key` must open a list (`list`) or a dictionary.
pub open spec fn expect_open_spec(b: Seq<u8>, pos: int, key: TorrentKey, list: bool) -> Result<int, TorrentFileError> {
    match tok(b, pos) {
        Err(e) => Err(e),
        Ok((SToken::BeginList, next)) if list => Ok(next),
        Ok((SToken::BeginDict, next)) if !list => Ok(next),
        Ok((t, _)) => Err(wrong_type(key, if list { TokenKind::BeginList } else { TokenKind::BeginDict }, t)),
    }
}

/// Skips tokens until `depth` open containers are closed.
pub open spec fn skip_nested_spec(b: Seq<u8>, pos: int, depth: int) -> Result<int, TorrentFileError>
    decreases b.len() - pos,
{
    if depth <= 0 {
        Ok(pos)
    } else {
        match tok(b, pos) {
            Err(e) => Err(e),
            Ok((t, next)) => if next <= pos || next > b.len() {
                Err(TorrentFileError::UnexpectedObjectClosure)
            } else {
                match t {
                    SToken::BeginList => skip_nested_spec(b, next, depth + 1),
                    SToken::BeginDict => skip_nested_spec(b, next, depth + 1),
                    SToken::End => skip_nested_spec(b, next, depth - 1),
                    _ => skip_nested_spec(b, next, depth),
                }
            },
        }
    }
}

/// Skips the value of a key that the reader does not know.
pub open spec fn skip_value_spec(b: Seq<u8>, pos: int) -> Result<int, TorrentFileError> {
    match tok(b, pos) {
        Err(e) => Err(e),
        Ok((SToken::End, _)) => Err(TorrentFileError::UnexpectedObjectClosure),
        Ok((SToken::BeginList, next)) => skip_nested_spec(b, next, 1),
        Ok((SToken::BeginDict, next)) => skip_nested_spec(b, next, 1),
        Ok((_, next)) => Ok(next),
    }
}

pub open spec fn with_phase(st: BuildState, p: TorrentBuilderStateKind) -> BuildState {
    BuildState { phase: p, ..st }
}

pub open spec fn with_info(st: BuildState, i: InfoModel) -> BuildState {
    BuildState { t: TorrentModel { info: i, ..st.t }, ..st }
}

pub open spec fn empty_file() -> FileModel {
    FileModel { length: 0, path: Seq::empty() }
}

pub open spec fn files_with_new(f: Option<Seq<FileModel>>) -> Seq<FileModel> {
    match f {
        Some(fs) => fs.push(empty_file()),
        None => seq![empty_file()],
    }
}

/// Changes the last file of the list, if there is one.
pub open spec fn update_last(f: Option<Seq<FileModel>>, nf: spec_fn(FileModel) -> FileModel) -> Option<Seq<FileModel>> {
    match f {
        Some(fs) => if fs.len() > 0 {
            Some(fs.update(fs.len() - 1, nf(fs.last())))
        } else {
            Some(fs)
        },
        None => None,
    }
}

pub open spec fn meta_key_spec(b: Seq<u8>, pos: int, k: Seq<u8>, st: BuildState) -> Result<(int, BuildState), TorrentFileError> {
    if k == key_announce() {
        match expect_string_spec(b, pos, TorrentKey::Announce) {
            Err(e) => Err(e),
            Ok((s, next)) => match text_of(s) {
                Err(e) => Err(e),
                Ok(a) => Ok((next, BuildState { t: TorrentModel { announce: a, ..st.t }, ..st })),
            },
        }
    } else if k == key_info() {
        match expect_open_spec(b, pos, TorrentKey::Info, false) {
            Err(e) => Err(e),
            Ok(next) => Ok((next, BuildState { phase: TorrentBuilderStateKind::Info, info_begin: pos, ..st })),
        }
    } else {
        match skip_value_spec(b, pos) {
            Err(e) => Err(e),
            Ok(next) => Ok((next, st)),
        }
    }
}

pub open spec fn info_key_spec(b: Seq<u8>, pos: int, k: Seq<u8>, st: BuildState) -> Result<(int, BuildState), TorrentFileError> {
    let i = st.t.info;
    if k == key_name() {
        match expect_string_spec(b, pos, TorrentKey::InfoName) {
            Err(e) => Err(e),
            Ok((s, next)) => match text_of(s) {
                Err(e) => Err(e),
                Ok(n) => Ok((next, with_info(st, InfoModel { name: n, ..i }))),
            },
        }
    } else if k == key_piece_length() {
        match tok(b, pos) {
            Err(e) => Err(e),
            Ok((SToken::Int(v), next)) => Ok((next, with_info(st, InfoModel { piece_length: if v >= 1 { v } else { 0 }, ..i }))),
            Ok((t, _)) => Err(wrong_type(TorrentKey::InfoPieceLength, TokenKind::Int, t)),
        }
    } else if k == key_pieces() {
        match expect_string_spec(b, pos, TorrentKey::InfoPieces) {
            Err(e) => Err(e),
            Ok((s, next)) => Ok((next, with_info(st, InfoModel { pieces: s, ..i }))),
        }
    } else if k == key_length() {
        if i.files is Some {
            Err(TorrentFileError::MutualExclusiveKeys)
        } else {
            match expect_count_spec(b, pos, TorrentKey::InfoLength) {
                Err(e) => Err(e),
                Ok((v, next)) => Ok((next, with_info(st, InfoModel { length: Some(v), ..i }))),
            }
        }
    } else if k == key_files() {
        if i.length is Some {
            Err(TorrentFileError::MutualExclusiveKeys)
        } else {
            match expect_open_spec(b, pos, TorrentKey::InfoFiles, true) {
                Err(e) => Err(e),
                Ok(next) => Ok((next, with_phase(with_info(st, InfoModel {
                    files: if i.files is Some { i.files } else { Some(Seq::empty()) },
                    ..i
                }), TorrentBuilderStateKind::Files))),
            }
        }
    } else {
        match skip_value_spec(b, pos) {
            Err(e) => Err(e),
            Ok(next) => Ok((next, st)),
        }
    }
}

pub open spec fn file_key_spec(b: Seq<u8>, pos: int, k: Seq<u8>, st: BuildState) -> Result<(int, BuildState), TorrentFileError> {
    let i = st.t.info;
    if k == key_length() {
        match expect_count_spec(b, pos, TorrentKey::FilesLength) {
            Err(e) => Err(e),
            Ok((v, next)) => Ok((next, with_info(st, InfoModel {
                files: update_last(i.files, |f: FileModel| FileModel { length: v, ..f }),
                ..i
            }))),
        }
    } else if k == key_path() {
        match expect_open_spec(b, pos, TorrentKey::FilesPath, true) {
            Err(e) => Err(e),
            Ok(next) => Ok((next, with_phase(st, TorrentBuilderStateKind::SingularFilePath))),
        }
    } else {
        match skip_value_spec(b, pos) {
            Err(e) => Err(e),
            Ok(next) => Ok((next, st)),
        }
    }
}

/// What the end of a well-formed `info` dictionary must hold: a name, a
/// positive piece length, pieces in whole digests, and exactly one of
/// `length` and `files`.
pub open spec fn info_valid_spec(i: InfoModel) -> Result<(), TorrentFileError> {
    if i.name.len() == 0 {
        Err(TorrentFileError::MissingRequiredKey { state: TorrentBuilderStateKind::Info, key: TorrentKey::InfoName })
    } else if i.piece_length <= 0 {
        Err(TorrentFileError::MissingRequiredKey { state: TorrentBuilderStateKind::Info, key: TorrentKey::InfoPieceLength })
    } else if i.pieces.len() == 0 {
        Err(TorrentFileError::MissingRequiredKey { state: TorrentBuilderStateKind::Info, key: TorrentKey::InfoPieces })
    } else if i.pieces.len() % 20 != 0 {
        Err(TorrentFileError::InvalidPiecesLength(i.pieces.len() as usize))
    } else if i.length is Some && i.files is Some {
        Err(TorrentFileError::MutualExclusiveKeys)
    } else if i.length is None && i.files is None {
        Err(TorrentFileError::MissingRequiredKey { state: TorrentBuilderStateKind::Info, key: TorrentKey::InfoFiles })
    } else {
        Ok(())
    }
}

/// What a finished metainfo must hold.
pub open spec fn torrent_valid_spec(t: TorrentModel, info_done: bool) -> Result<(), TorrentFileError> {
    if t.announce.len() == 0 {
        Err(TorrentFileError::MissingRequiredKey { state: TorrentBuilderStateKind::MetaInfo, key: TorrentKey::Announce })
    } else if !info_done {
        Err(TorrentFileError::MissingRequiredKey { state: TorrentBuilderStateKind::MetaInfo, key: TorrentKey::Info })
    } else {
        Ok(())
    }
}

/// The bytes of the `info` dictionary, from its `d` to its `e` at `end`.
pub open spec fn info_slice(b: Seq<u8>, begin: int, end: int) -> Seq<u8> {
    b.subrange(begin, end + 1)
}

/// One move of the reader: the tokens that one state takes, and the state after them.
pub open spec fn build_step(b: Seq<u8>, pos: int, st: BuildState) -> Result<(int, BuildState), TorrentFileError> {
    match st.phase {
        TorrentBuilderStateKind::Begin => match tok(b, pos) {
            Err(e) => Err(e),
            Ok((SToken::BeginDict, next)) => Ok((next, with_phase(st, TorrentBuilderStateKind::MetaInfo))),
            Ok(_) => Err(TorrentFileError::MissingMetaInfoOpener),
        },
        TorrentBuilderStateKind::MetaInfo => match tok(b, pos) {
            Err(e) => Err(e),
            Ok((SToken::Bytes(k), next)) => meta_key_spec(b, next, k, st),
            Ok((SToken::End, next)) => Ok((next, with_phase(st, TorrentBuilderStateKind::Finished))),
            Ok((t, _)) => Err(TorrentFileError::ExpectedKey { state: TorrentBuilderStateKind::MetaInfo, got: kind_of(t) }),
        },
        TorrentBuilderStateKind::Info => match tok(b, pos) {
            Err(e) => Err(e),
            Ok((SToken::Bytes(k), next)) => info_key_spec(b, next, k, st),
            Ok((SToken::End, next)) => {
                let i = InfoModel { info_hash: sha1_of(info_slice(b, st.info_begin, pos)), begin: st.info_begin, end: pos, ..st.t.info };
                match info_valid_spec(i) {
                    Err(e) => Err(e),
                    Ok(()) => Ok((next, BuildState {
                        phase: TorrentBuilderStateKind::MetaInfo,
                        info_done: true,
                        t: TorrentModel { info: i, ..st.t },
                        ..st
                    })),
                }
            },
            Ok((t, _)) => Err(TorrentFileError::ExpectedKey { state: TorrentBuilderStateKind::Info, got: kind_of(t) }),
        },
        TorrentBuilderStateKind::Files => match tok(b, pos) {
            Err(e) => Err(e),
            Ok((SToken::BeginDict, next)) => Ok((next, with_phase(with_info(st, InfoModel {
                files: Some(files_with_new(st.t.info.files)),
                ..st.t.info
            }), TorrentBuilderStateKind::SingularFile))),
            Ok((SToken::End, next)) => Ok((next, with_phase(st, TorrentBuilderStateKind::Info))),
            Ok((t, _)) => Err(TorrentFileError::ExpectedKey { state: TorrentBuilderStateKind::Files, got: kind_of(t) }),
        },
        TorrentBuilderStateKind::SingularFile => match tok(b, pos) {
            Err(e) => Err(e),
            Ok((SToken::Bytes(k), next)) => file_key_spec(b, next, k, st),
            Ok((SToken::End, next)) => Ok((next, with_phase(st, TorrentBuilderStateKind::Files))),
            Ok((t, _)) => Err(TorrentFileError::ExpectedKey { state: TorrentBuilderStateKind::SingularFile, got: kind_of(t) }),
        },
        TorrentBuilderStateKind::SingularFilePath => match tok(b, pos) {
            Err(e) => Err(e),
            Ok((SToken::Bytes(s), next)) => match text_of(s) {
                Err(e) => Err(e),
                Ok(seg) => Ok((next, with_info(st, InfoModel {
                    files: update_last(st.t.info.files, |f: FileModel| FileModel { path: f.path.push(seg), ..f }),
                    ..st.t.info
                }))),
            },
            Ok((SToken::End, next)) => Ok((next, with_phase(st, TorrentBuilderStateKind::SingularFile))),
            Ok((t, _)) => Err(wrong_type(TorrentKey::FilesPath, TokenKind::String, t)),
        },
        TorrentBuilderStateKind::Finished => Ok((pos, st)),
    }
}

/// Runs the reader from `pos` in state `st` to the end of the root dictionary.
pub open spec fn build_from(b: Seq<u8>, pos: int, st: BuildState) -> Result<TorrentModel, TorrentFileError>
    decreases b.len() - pos,
{
    if st.phase == TorrentBuilderStateKind::Finished {
        match torrent_valid_spec(st.t, st.info_done) {
            Err(e) => Err(e),
            Ok(()) => Ok(st.t),
        }
    } else {
        match build_step(b, pos, st) {
            Err(e) => Err(e),
            Ok((next, st2)) => if next <= pos || next > b.len() {
                Err(TorrentFileError::UnexpectedObjectClosure)
            } else {
                build_from(b, next, st2)
            },
        }
    }
}

/// The metainfo that the bytes `b` describe.
pub open spec fn build_spec(b: Seq<u8>) -> Result<TorrentModel, TorrentFileError> {
    build_from(b, 0, initial_state())
}

/// One file of a multi-file torrent.
#[derive(Debug)]
pub struct File {
    length: u64,
    path: Vec<String>,
}

/// The `info` dictionary of a torrent, with its digest.
#[derive(Debug)]
pub struct Info {
    info_hash: [u8; 20],
    info_begin: usize,
    info_end: usize,
    name: String,
    piece_length: u64,
    pieces: Vec<u8>,
    length: Option<u64>,
    files: Option<Vec<File>>,
}

/// A torrent descriptor read from a metainfo file.
#[derive(Debug)]
pub struct Torrent {
    announce: String,
    info: Info,
}

pub open spec fn opt_u64(o: Option<u64>) -> Option<int> {
    match o {
        Some(v) => Some(v as int),
        None => None,
    }
}

pub open spec fn files_model(v: Seq<File>) -> Seq<FileModel> {
    Seq::new(v.len(), |i: int| v[i].model())
}

pub open spec fn opt_files(o: Option<Vec<File>>) -> Option<Seq<FileModel>> {
    match o {
        Some(v) => Some(files_model(v@)),
        None => None,
    }
}

impl File {
    pub closed spec fn model(&self) -> FileModel {
        FileModel { length: self.length as int, path: Seq::new(self.path.len() as nat, |i: int| self.path@[i]@) }
    }

    fn new() -> (r: File)
        ensures
            r.model() == empty_file(),
    {
        let r = File { length: 0, path: Vec::new() };
        assert(r.model().path =~= Seq::<Seq<char>>::empty());
        r
    }

    pub fn length(&self) -> (r: u64)
        ensures
            r == self.model().length,
    {
        self.length
    }

    /// The segments of the file's path, outermost first.
    pub fn path(&self) -> (r: &Vec<String>)
        ensures
            r@.len() == self.model().path.len(),
            forall|i: int| 0 <= i < r@.len() ==> #[trigger] r@[i]@ == self.model().path[i],
    {
        &self.path
    }
}

impl Info {
    pub closed spec fn model(&self) -> InfoModel {
        InfoModel {
            info_hash: self.info_hash@,
            begin: self.info_begin as int,
            end: self.info_end as int,
            name: self.name@,
            piece_length: self.piece_length as int,
            pieces: self.pieces@,
            length: opt_u64(self.length),
            files: opt_files(self.files),
        }
    }

    fn new() -> (r: Info)
        ensures
            r.model() == empty_info(),
    {
        let r = Info {
            info_hash: [0u8; 20],
            info_begin: 0,
            info_end: 0,
            name: String::new(),
            piece_length: 0,
            pieces: Vec::new(),
            length: None,
            files: None,
        };
        assert(r.model().info_hash =~= empty_info().info_hash);
        assert(r.model().pieces =~= Seq::<u8>::empty());
        r
    }

    /// Checks what the end of the `info` dictionary must hold.
    fn is_valid(&self) -> (r: Result<(), TorrentFileError>)
        ensures
            r == info_valid_spec(self.model()),
    {
        if self.name.as_str().is_empty() {
            return Err(TorrentFileError::MissingRequiredKey { state: TorrentBuilderStateKind::Info, key: TorrentKey::InfoName });
        }
        if self.piece_length == 0 {
            return Err(TorrentFileError::MissingRequiredKey { state: TorrentBuilderStateKind::Info, key: TorrentKey::InfoPieceLength });
        }
        if self.pieces.len() == 0 {
            return Err(TorrentFileError::MissingRequiredKey { state: TorrentBuilderStateKind::Info, key: TorrentKey::InfoPieces });
        }
        if self.pieces.len() % 20 != 0 {
            return Err(TorrentFileError::InvalidPiecesLength(self.pieces.len()));
        }
        if self.length.is_some() && self.files.is_some() {
            return Err(TorrentFileError::MutualExclusiveKeys);
        }
        if self.length.is_none() && self.files.is_none() {
            return Err(TorrentFileError::MissingRequiredKey { state: TorrentBuilderStateKind::Info, key: TorrentKey::InfoFiles });
        }
        Ok(())
    }
}

impl View for Torrent {
    type V = TorrentModel;

    closed spec fn view(&self) -> TorrentModel {
        TorrentModel { announce: self.announce@, info: self.info.model() }
    }
}

/// Relies on std's `String::from_utf8`: it accepts exactly the valid
/// UTF-8 byte strings, and the text keeps their characters.
#[verifier::external_body]
fn utf8_string(b: Vec<u8>) -> (r: Option<String>)
    ensures
        r is Some == valid_utf8(b@),
        r matches Some(t) ==> t@ == decode_utf8(b@),
{
    String::from_utf8(b).ok()
}

/// The text of a byte string that must be UTF-8.
fn utf8_text(b: Vec<u8>) -> (r: Result<String, TorrentFileError>)
    ensures
        match text_of(b@) {
            Ok(t) => r is Ok && r->Ok_0@ == t,
            Err(e) => r == Err::<String, TorrentFileError>(e),
        },
{
    match utf8_string(b) {
        Some(t) => Ok(t),
        None => Err(TorrentFileError::Utf8),
    }
}

/// What a reading step returned, against the model's step.
pub open spec fn moved_to(
    r: Result<(), TorrentFileError>,
    expected: Result<(int, BuildState), TorrentFileError>,
    cursor: int,
    after: BuildState,
) -> bool {
    match expected {
        Ok((n, st)) => r is Ok && cursor == n && after == st,
        Err(e) => r == Err::<(), TorrentFileError>(e),
    }
}

fn next_tok(dec: &mut Tokenizer) -> (r: Result<Token, TorrentFileError>)
    ensures
        final(dec).source() == old(dec).source(),
        match tok(old(dec).source(), old(dec).cursor()) {
            Ok((t, n)) => {
                &&& r is Ok
                &&& r->Ok_0.spec_token() == t
                &&& r->Ok_0.spec_pos() == old(dec).cursor()
                &&& final(dec).cursor() == n
            },
            Err(e) => r == Err::<Token, TorrentFileError>(e),
        },
        r is Ok ==> old(dec).cursor() < final(dec).cursor() <= old(dec).source().len(),
{
    match dec.next_token() {
        Ok(t) => Ok(t),
        Err(e) => Err(TorrentFileError::Decode(e)),
    }
}

/// Reads the value of `key`, which must be a byte string.
fn expect_string(dec: &mut Tokenizer, key: TorrentKey) -> (r: Result<Vec<u8>, TorrentFileError>)
    ensures
        final(dec).source() == old(dec).source(),
        match expect_string_spec(old(dec).source(), old(dec).cursor(), key) {
            Ok((s, n)) => r is Ok && r->Ok_0@ == s && final(dec).cursor() == n,
            Err(e) => r == Err::<Vec<u8>, TorrentFileError>(e),
        },
        r is Ok ==> old(dec).cursor() < final(dec).cursor() <= old(dec).source().len(),
{
    let t = next_tok(dec)?;
    let kind = t.kind();
    match t {
        Token::String(s, _) => Ok(s),
        _ => Err(TorrentFileError::UnexpectedTypeForKey { key, expected: TokenKind::String, got: kind }),
    }
}

/// Reads the value of `key`, which must be an integer that is not negative.
fn expect_count(dec: &mut Tokenizer, key: TorrentKey) -> (r: Result<u64, TorrentFileError>)
    ensures
        final(dec).source() == old(dec).source(),
        match expect_count_spec(old(dec).source(), old(dec).cursor(), key) {
            Ok((v, n)) => r is Ok && r->Ok_0 == v && final(dec).cursor() == n,
            Err(e) => r == Err::<u64, TorrentFileError>(e),
        },
        r is Ok ==> old(dec).cursor() < final(dec).cursor() <= old(dec).source().len(),
{
    let t = next_tok(dec)?;
    let kind = t.kind();
    match t {
        Token::Int(i, _) => if i >= 0 {
            Ok(i as u64)
        } else {
            Err(TorrentFileError::UnexpectedTypeForKey { key, expected: TokenKind::Int, got: kind })
        },
        _ => Err(TorrentFileError::UnexpectedTypeForKey { key, expected: TokenKind::Int, got: kind }),
    }
}

/// Reads the value of `key`, which must open a list (`list`) or a
/// dictionary; gives the offset of its opening byte.
fn expect_open(dec: &mut Tokenizer, key: TorrentKey, list: bool) -> (r: Result<usize, TorrentFileError>)
    ensures
        final(dec).source() == old(dec).source(),
        match expect_open_spec(old(dec).source(), old(dec).cursor(), key, list) {
            Ok(n) => r is Ok && r->Ok_0 == old(dec).cursor() && final(dec).cursor() == n,
            Err(e) => r == Err::<usize, TorrentFileError>(e),
        },
        r is Ok ==> old(dec).cursor() < final(dec).cursor() <= old(dec).source().len(),
{
    let t = next_tok(dec)?;
    let kind = t.kind();
    match t {
        Token::BeginList(p) if list => Ok(p),
        Token::BeginDict(p) if !list => Ok(p),
        _ => Err(TorrentFileError::UnexpectedTypeForKey {
            key,
            expected: if list { TokenKind::BeginList } else { TokenKind::BeginDict },
            got: kind,
        }),
    }
}

/// Skips tokens until the container just opened is closed.
fn skip_nested_value(dec: &mut Tokenizer) -> (r: Result<(), TorrentFileError>)
    requires
        1 <= old(dec).cursor() <= old(dec).source().len(),
    ensures
        final(dec).source() == old(dec).source(),
        match skip_nested_spec(old(dec).source(), old(dec).cursor(), 1) {
            Ok(n) => r is Ok && final(dec).cursor() == n,
            Err(e) => r == Err::<(), TorrentFileError>(e),
        },
        r is Ok ==> old(dec).cursor() < final(dec).cursor() <= old(dec).source().len(),
{
    let ghost b = dec.source();
    let _len = dec.source_len();
    let mut depth: usize = 1;
    while depth != 0
        invariant
            dec.source() == b,
            b == old(dec).source(),
            b.len() <= usize::MAX,
            old(dec).cursor() <= dec.cursor() <= b.len(),
            1 <= old(dec).cursor(),
            depth <= dec.cursor() - old(dec).cursor() + 1,
            depth == 0 ==> old(dec).cursor() < dec.cursor(),
            skip_nested_spec(b, old(dec).cursor(), 1) == skip_nested_spec(b, dec.cursor(), depth as int),
        decreases b.len() - dec.cursor(), depth,
    {
        let t = next_tok(dec)?;
        match t {
            Token::BeginDict(_) => depth = depth + 1,
            Token::BeginList(_) => depth = depth + 1,
            Token::EndObject(_) => depth = depth - 1,
            _ => {},
        }
    }
    Ok(())
}

/// Skips the value of a key that the reader does not know.
fn skip_value(dec: &mut Tokenizer) -> (r: Result<(), TorrentFileError>)
    ensures
        final(dec).source() == old(dec).source(),
        match skip_value_spec(old(dec).source(), old(dec).cursor()) {
            Ok(n) => r is Ok && final(dec).cursor() == n,
            Err(e) => r == Err::<(), TorrentFileError>(e),
        },
        r is Ok ==> old(dec).cursor() < final(dec).cursor() <= old(dec).source().len(),
{
    let t = next_tok(dec)?;
    match t {
        Token::Int(_, _) => Ok(()),
        Token::String(_, _) => Ok(()),
        Token::EndObject(_) => Err(TorrentFileError::UnexpectedObjectClosure),
        Token::BeginDict(_) => skip_nested_value(dec),
        Token::BeginList(_) => skip_nested_value(dec),
    }
}

fn key_is(key: &[u8], lit: &[u8]) -> (r: bool)
    ensures
        r == (key@ == lit@),
{
    crate::digest::is_equal_sha1_slice(key, lit)
}

fn push_new_file(files: &mut Option<Vec<File>>)
    ensures
        opt_files(*final(files)) == Some(files_with_new(opt_files(*old(files)))),
{
    let mut fs = match files.take() {
        Some(fs) => fs,
        None => Vec::new(),
    };
    let ghost before = fs@;
    fs.push(File::new());
    assert(files_model(fs@) =~= files_with_new(opt_files(*old(files))));
    *files = Some(fs);
}

fn set_last_length(files: &mut Option<Vec<File>>, len: u64)
    ensures
        opt_files(*final(files)) == update_last(opt_files(*old(files)), |f: FileModel| FileModel { length: len as int, ..f }),
{
    match files.take() {
        Some(fs) => {
            let mut fs = fs;
            let ghost before = files_model(fs@);
            if fs.len() > 0 {
                let mut f = fs.pop().unwrap();
                f.length = len;
                fs.push(f);
                assert(files_model(fs@) =~= before.update(before.len() - 1, FileModel { length: len as int, ..before.last() }));
            } else {
                assert(files_model(fs@) =~= before);
            }
            *files = Some(fs);
        },
        None => {},
    }
}

fn push_last_segment(files: &mut Option<Vec<File>>, seg: String)
    ensures
        opt_files(*final(files)) == update_last(opt_files(*old(files)), |f: FileModel| FileModel { path: f.path.push(seg@), ..f }),
{
    match files.take() {
        Some(fs) => {
            let mut fs = fs;
            let ghost before = files_model(fs@);
            if fs.len() > 0 {
                let mut f = fs.pop().unwrap();
                let ghost fm = f.model();
                f.path.push(seg);
                assert(f.model().path =~= fm.path.push(seg@));
                fs.push(f);
                assert(files_model(fs@) =~= before.update(before.len() - 1, FileModel { path: before.last().path.push(seg@), ..before.last() }));
            } else {
                assert(files_model(fs@) =~= before);
            }
            *files = Some(fs);
        },
        None => {},
    }
}

impl Torrent {
    fn empty() -> (r: Torrent)
        ensures
            r@ == initial_state().t,
    {
        Torrent { announce: String::new(), info: Info::new() }
    }

    /// Checks what a finished metainfo must hold.
    fn is_valid(&self, info_done: bool) -> (r: Result<(), TorrentFileError>)
        ensures
            r == torrent_valid_spec(self@, info_done),
    {
        if self.announce.as_str().is_empty() {
            return Err(TorrentFileError::MissingRequiredKey { state: TorrentBuilderStateKind::MetaInfo, key: TorrentKey::Announce });
        }
        if !info_done {
            return Err(TorrentFileError::MissingRequiredKey { state: TorrentBuilderStateKind::MetaInfo, key: TorrentKey::Info });
        }
        Ok(())
    }
}

/// Reads a metainfo file token by token, and keeps where its `info`
/// dictionary begins so that the digest covers exactly its bytes.
pub struct TorrentBuilder<'a> {
    state: TorrentBuilderStateKind,
    src: &'a [u8],
    info_begin: usize,
    info_done: bool,
}

impl<'a> TorrentBuilder<'a> {
    pub closed spec fn source(&self) -> Seq<u8> {
        self.src@
    }

    pub closed spec fn begin_offset(&self) -> int {
        self.info_begin as int
    }

    pub closed spec fn is_fresh(&self) -> bool {
        self.state == TorrentBuilderStateKind::Begin && self.info_begin == 0 && !self.info_done
    }

    spec fn bs(&self, t: &Torrent) -> BuildState {
        BuildState { phase: self.state, info_begin: self.info_begin as int, info_done: self.info_done, t: t@ }
    }

    pub fn new(src: &'a [u8]) -> (r: TorrentBuilder<'a>)
        ensures
            r.source() == src@,
            r.begin_offset() == 0,
            r.is_fresh(),
    {
        TorrentBuilder { state: TorrentBuilderStateKind::Begin, src, info_begin: 0, info_done: false }
    }

    /// Sets the offset at which the `info` dictionary begins.
    pub fn set_info_begin(&mut self, pos: usize)
        ensures
            final(self).source() == old(self).source(),
            final(self).begin_offset() == pos,
    {
        self.info_begin = pos;
    }

    /// The bytes of the `info` dictionary, from its `d` to the `e` at `end_pos`.
    pub fn get_info_slice(&self, end_pos: usize) -> (r: &'a [u8])
        requires
            self.begin_offset() <= end_pos < self.source().len(),
        ensures
            r@ == info_slice(self.source(), self.begin_offset(), end_pos as int),
    {
        let _len = self.src.len();
        vstd::slice::slice_subrange(self.src, self.info_begin, end_pos + 1)
    }

    fn handle_announce(&self, dec: &mut Tokenizer, torrent: &mut Torrent) -> (r: Result<(), TorrentFileError>)
        ensures
            final(dec).source() == old(dec).source(),
            match expect_string_spec(old(dec).source(), old(dec).cursor(), TorrentKey::Announce) {
                Err(e) => r == Err::<(), TorrentFileError>(e),
                Ok((s, n)) => match text_of(s) {
                    Err(e) => r == Err::<(), TorrentFileError>(e),
                    Ok(a) => r is Ok && final(dec).cursor() == n && final(torrent)@ == TorrentModel { announce: a, ..old(torrent)@ },
                },
            },
            r is Ok ==> old(dec).cursor() < final(dec).cursor() <= old(dec).source().len(),
    {
        let url = expect_string(dec, TorrentKey::Announce)?;
        let url = utf8_text(url)?;
        torrent.announce = url;
        Ok(())
    }

    fn handle_meta_keys(&mut self, key: Vec<u8>, dec: &mut Tokenizer, torrent: &mut Torrent) -> (r: Result<(), TorrentFileError>)
        requires
            old(self).begin_offset() <= old(dec).cursor(),
        ensures
            final(dec).source() == old(dec).source(),
            final(self).source() == old(self).source(),
            moved_to(r, meta_key_spec(old(dec).source(), old(dec).cursor(), key@, old(self).bs(old(torrent))), final(dec).cursor(), final(self).bs(final(torrent))),
            r is Ok ==> old(dec).cursor() < final(dec).cursor() <= old(dec).source().len(),
            r is Ok ==> final(self).begin_offset() <= final(dec).cursor(),
    {
        if key_is(key.as_slice(), &[97u8, 110, 110, 111, 117, 110, 99, 101]) {
            self.handle_announce(dec, torrent)
        } else if key_is(key.as_slice(), &[105u8, 110, 102, 111]) {
            let p = expect_open(dec, TorrentKey::Info, false)?;
            self.state = TorrentBuilderStateKind::Info;
            self.info_begin = p;
            Ok(())
        } else {
            skip_value(dec)
        }
    }

    fn handle_name(&self, dec: &mut Tokenizer, torrent: &mut Torrent) -> (r: Result<(), TorrentFileError>)
        ensures
            final(dec).source() == old(dec).source(),
            match expect_string_spec(old(dec).source(), old(dec).cursor(), TorrentKey::InfoName) {
                Err(e) => r == Err::<(), TorrentFileError>(e),
                Ok((s, n)) => match text_of(s) {
                    Err(e) => r == Err::<(), TorrentFileError>(e),
                    Ok(a) => r is Ok && final(dec).cursor() == n
                        && final(torrent)@ == TorrentModel { info: InfoModel { name: a, ..old(torrent)@.info }, ..old(torrent)@ },
                },
            },
            r is Ok ==> old(dec).cursor() < final(dec).cursor() <= old(dec).source().len(),
    {
        let name = expect_string(dec, TorrentKey::InfoName)?;
        let name = utf8_text(name)?;
        torrent.info.name = name;
        Ok(())
    }

    fn handle_piece_length(&self, dec: &mut Tokenizer, torrent: &mut Torrent) -> (r: Result<(), TorrentFileError>)
        ensures
            final(dec).source() == old(dec).source(),
            match tok(old(dec).source(), old(dec).cursor()) {
                Err(e) => r == Err::<(), TorrentFileError>(e),
                Ok((SToken::Int(v), n)) => r is Ok && final(dec).cursor() == n
                    && final(torrent)@ == TorrentModel { info: InfoModel { piece_length: if v >= 1 { v } else { 0 }, ..old(torrent)@.info }, ..old(torrent)@ },
                Ok((t, _)) => r == Err::<(), TorrentFileError>(wrong_type(TorrentKey::InfoPieceLength, TokenKind::Int, t)),
            },
            r is Ok ==> old(dec).cursor() < final(dec).cursor() <= old(dec).source().len(),
    {
        let t = next_tok(dec)?;
        let kind = t.kind();
        match t {
            Token::Int(v, _) => {
                torrent.info.piece_length = if v >= 1 { v as u64 } else { 0 };
                Ok(())
            },
            _ => Err(TorrentFileError::UnexpectedTypeForKey { key: TorrentKey::InfoPieceLength, expected: TokenKind::Int, got: kind }),
        }
    }

    fn handle_pieces(&self, dec: &mut Tokenizer, torrent: &mut Torrent) -> (r: Result<(), TorrentFileError>)
        ensures
            final(dec).source() == old(dec).source(),
            match expect_string_spec(old(dec).source(), old(dec).cursor(), TorrentKey::InfoPieces) {
                Err(e) => r == Err::<(), TorrentFileError>(e),
                Ok((s, n)) => r is Ok && final(dec).cursor() == n
                    && final(torrent)@ == TorrentModel { info: InfoModel { pieces: s, ..old(torrent)@.info }, ..old(torrent)@ },
            },
            r is Ok ==> old(dec).cursor() < final(dec).cursor() <= old(dec).source().len(),
    {
        let pieces = expect_string(dec, TorrentKey::InfoPieces)?;
        torrent.info.pieces = pieces;
        Ok(())
    }

    fn handle_length(&self, dec: &mut Tokenizer, torrent: &mut Torrent) -> (r: Result<(), TorrentFileError>)
        ensures
            final(dec).source() == old(dec).source(),
            match expect_count_spec(old(dec).source(), old(dec).cursor(), TorrentKey::InfoLength) {
                Err(e) => r == Err::<(), TorrentFileError>(e),
                Ok((v, n)) => r is Ok && final(dec).cursor() == n
                    && final(torrent)@ == TorrentModel { info: InfoModel { length: Some(v), ..old(torrent)@.info }, ..old(torrent)@ },
            },
            r is Ok ==> old(dec).cursor() < final(dec).cursor() <= old(dec).source().len(),
    {
        let len = expect_count(dec, TorrentKey::InfoLength)?;
        torrent.info.length = Some(len);
        Ok(())
    }

    fn handle_info_keys(&mut self, key: Vec<u8>, dec: &mut Tokenizer, torrent: &mut Torrent) -> (r: Result<(), TorrentFileError>)
        ensures
            final(dec).source() == old(dec).source(),
            final(self).source() == old(self).source(),
            moved_to(r, info_key_spec(old(dec).source(), old(dec).cursor(), key@, old(self).bs(old(torrent))), final(dec).cursor(), final(self).bs(final(torrent))),
            r is Ok ==> old(dec).cursor() < final(dec).cursor() <= old(dec).source().len(),
            final(self).begin_offset() == old(self).begin_offset(),
    {
        if key_is(key.as_slice(), &[110u8, 97, 109, 101]) {
            self.handle_name(dec, torrent)
        } else if key_is(key.as_slice(), &[112u8, 105, 101, 99, 101, 32, 108, 101, 110, 103, 116, 104]) {
            self.handle_piece_length(dec, torrent)
        } else if key_is(key.as_slice(), &[112u8, 105, 101, 99, 101, 115]) {
            self.handle_pieces(dec, torrent)
        } else if key_is(key.as_slice(), &[108u8, 101, 110, 103, 116, 104]) {
            if torrent.info.files.is_some() {
                return Err(TorrentFileError::MutualExclusiveKeys);
            }
            self.handle_length(dec, torrent)
        } else if key_is(key.as_slice(), &[102u8, 105, 108, 101, 115]) {
            if torrent.info.length.is_some() {
                return Err(TorrentFileError::MutualExclusiveKeys);
            }
            let _ = expect_open(dec, TorrentKey::InfoFiles, true)?;
            if torrent.info.files.is_none() {
                torrent.info.files = Some(Vec::new());
                assert(files_model(Seq::<File>::empty()) =~= Seq::<FileModel>::empty());
            }
            self.state = TorrentBuilderStateKind::Files;
            Ok(())
        } else {
            skip_value(dec)
        }
    }

    fn handle_file_length(&self, dec: &mut Tokenizer, torrent: &mut Torrent) -> (r: Result<(), TorrentFileError>)
        ensures
            final(dec).source() == old(dec).source(),
            match expect_count_spec(old(dec).source(), old(dec).cursor(), TorrentKey::FilesLength) {
                Err(e) => r == Err::<(), TorrentFileError>(e),
                Ok((v, n)) => r is Ok && final(dec).cursor() == n
                    && final(torrent)@ == TorrentModel { info: InfoModel {
                        files: update_last(old(torrent)@.info.files, |f: FileModel| FileModel { length: v, ..f }),
                        ..old(torrent)@.info
                    }, ..old(torrent)@ },
            },
            r is Ok ==> old(dec).cursor() < final(dec).cursor() <= old(dec).source().len(),
    {
        let length = expect_count(dec, TorrentKey::FilesLength)?;
        set_last_length(&mut torrent.info.files, length);
        Ok(())
    }

    fn handle_file_keys(&mut self, key: Vec<u8>, dec: &mut Tokenizer, torrent: &mut Torrent) -> (r: Result<(), TorrentFileError>)
        ensures
            final(dec).source() == old(dec).source(),
            final(self).source() == old(self).source(),
            moved_to(r, file_key_spec(old(dec).source(), old(dec).cursor(), key@, old(self).bs(old(torrent))), final(dec).cursor(), final(self).bs(final(torrent))),
            r is Ok ==> old(dec).cursor() < final(dec).cursor() <= old(dec).source().len(),
            final(self).begin_offset() == old(self).begin_offset(),
    {
        if key_is(key.as_slice(), &[108u8, 101, 110, 103, 116, 104]) {
            self.handle_file_length(dec, torrent)
        } else if key_is(key.as_slice(), &[112u8, 97, 116, 104]) {
            let _ = expect_open(dec, TorrentKey::FilesPath, true)?;
            self.state = TorrentBuilderStateKind::SingularFilePath;
            Ok(())
        } else {
            skip_value(dec)
        }
    }

    /// Adds a segment to the path of the file being read.
    fn handle_file_path(&self, path: Vec<u8>, torrent: &mut Torrent) -> (r: Result<(), TorrentFileError>)
        ensures
            match text_of(path@) {
                Err(e) => r == Err::<(), TorrentFileError>(e),
                Ok(seg) => r is Ok && final(torrent)@ == TorrentModel { info: InfoModel {
                    files: update_last(old(torrent)@.info.files, |f: FileModel| FileModel { path: f.path.push(seg), ..f }),
                    ..old(torrent)@.info
                }, ..old(torrent)@ },
            },
    {
        let seg = utf8_text(path)?;
        push_last_segment(&mut torrent.info.files, seg);
        Ok(())
    }
}

pub open spec fn built(r: Result<Torrent, TorrentFileError>, expected: Result<TorrentModel, TorrentFileError>) -> bool {
    match expected {
        Ok(m) => r is Ok && r->Ok_0@ == m,
        Err(e) => r == Err::<Torrent, TorrentFileError>(e),
    }
}

impl<'a> TorrentBuilder<'a> {
    /// Reads the whole metainfo (see `build_spec`).
    pub fn build(self) -> (r: Result<Torrent, TorrentFileError>)
        requires
            self.is_fresh(),
        ensures
            built(r, build_spec(self.source())),
    {
        let ghost b = self.src@;
        let mut this = self;
        let mut dec = Tokenizer::new(this.src);
        let mut torrent = Torrent::empty();
        let _len = dec.source_len();
        loop
            invariant
                dec.source() == b,
                this.source() == b,
                self.source() == b,
                b.len() <= usize::MAX,
                dec.cursor() <= b.len(),
                this.begin_offset() <= dec.cursor(),
                build_spec(b) == build_from(b, dec.cursor(), this.bs(&torrent)),
            decreases b.len() - dec.cursor(),
        {
            let ghost pos = dec.cursor();
            let ghost st = this.bs(&torrent);
            match this.state {
                TorrentBuilderStateKind::Finished => {
                    let v = torrent.is_valid(this.info_done);
                    return match v {
                        Ok(()) => Ok(torrent),
                        Err(e) => Err(e),
                    };
                },
                TorrentBuilderStateKind::Begin => {
                    let t = next_tok(&mut dec)?;
                    match t {
                        Token::BeginDict(_) => this.state = TorrentBuilderStateKind::MetaInfo,
                        _ => {
                            return Err(TorrentFileError::MissingMetaInfoOpener);
                        },
                    }
                },
                TorrentBuilderStateKind::MetaInfo => {
                    let t = next_tok(&mut dec)?;
                    let kind = t.kind();
                    match t {
                        Token::String(key, _) => this.handle_meta_keys(key, &mut dec, &mut torrent)?,
                        Token::EndObject(_) => this.state = TorrentBuilderStateKind::Finished,
                        _ => {
                            return Err(TorrentFileError::ExpectedKey { state: TorrentBuilderStateKind::MetaInfo, got: kind });
                        },
                    }
                },
                TorrentBuilderStateKind::Info => {
                    let t = next_tok(&mut dec)?;
                    let kind = t.kind();
                    match t {
                        Token::String(key, _) => this.handle_info_keys(key, &mut dec, &mut torrent)?,
                        Token::EndObject(p) => {
                            let slice = this.get_info_slice(p);
                            torrent.info.info_hash = make_sha1(slice);
                            torrent.info.info_begin = this.info_begin;
                            torrent.info.info_end = p;
                            torrent.info.is_valid()?;
                            this.state = TorrentBuilderStateKind::MetaInfo;
                            this.info_done = true;
                        },
                        _ => {
                            return Err(TorrentFileError::ExpectedKey { state: TorrentBuilderStateKind::Info, got: kind });
                        },
                    }
                },
                TorrentBuilderStateKind::Files => {
                    let t = next_tok(&mut dec)?;
                    let kind = t.kind();
                    match t {
                        Token::BeginDict(_) => {
                            push_new_file(&mut torrent.info.files);
                            this.state = TorrentBuilderStateKind::SingularFile;
                        },
                        Token::EndObject(_) => this.state = TorrentBuilderStateKind::Info,
                        _ => {
                            return Err(TorrentFileError::ExpectedKey { state: TorrentBuilderStateKind::Files, got: kind });
                        },
                    }
                },
                TorrentBuilderStateKind::SingularFile => {
                    let t = next_tok(&mut dec)?;
                    let kind = t.kind();
                    match t {
                        Token::String(key, _) => this.handle_file_keys(key, &mut dec, &mut torrent)?,
                        Token::EndObject(_) => this.state = TorrentBuilderStateKind::Files,
                        _ => {
                            return Err(TorrentFileError::ExpectedKey { state: TorrentBuilderStateKind::SingularFile, got: kind });
                        },
                    }
                },
                TorrentBuilderStateKind::SingularFilePath => {
                    let t = next_tok(&mut dec)?;
                    let kind = t.kind();
                    match t {
                        Token::String(path, _) => this.handle_file_path(path, &mut torrent)?,
                        Token::EndObject(_) => this.state = TorrentBuilderStateKind::SingularFile,
                        _ => {
                            return Err(TorrentFileError::UnexpectedTypeForKey {
                                key: TorrentKey::FilesPath,
                                expected: TokenKind::String,
                                got: kind,
                            });
                        },
                    }
                },
            }
            assert(build_step(b, pos, st) == Ok::<(int, BuildState), TorrentFileError>((dec.cursor(), this.bs(&torrent))));
        }
    }
}

impl Torrent {
    /// Reads a torrent descriptor from the bytes of a metainfo file.
    pub fn from_bytes(src: &[u8]) -> (r: Result<Torrent, TorrentFileError>)
        ensures
            built(r, build_spec(src@)),
    {
        let builder = TorrentBuilder::new(src);
        builder.build()
    }

    /// The digest of the `info` dictionary; every torrent read has one.
    pub fn info_hash(&self) -> (r: Option<[u8; 20]>)
        ensures
            r is Some && r->Some_0@ == self@.info.info_hash,
    {
        Some(self.info.info_hash)
    }

    /// The tracker's URL.
    pub fn announce(&self) -> (r: &str)
        ensures
            r@ == self@.announce,
    {
        self.announce.as_str()
    }

    pub fn name(&self) -> (r: &str)
        ensures
            r@ == self@.info.name,
    {
        self.info.name.as_str()
    }

    pub fn piece_length(&self) -> (r: u64)
        ensures
            r == self@.info.piece_length,
    {
        self.info.piece_length
    }

    /// The digests of the pieces, 20 bytes each, one after the other.
    pub fn pieces(&self) -> (r: &[u8])
        ensures
            r@ == self@.info.pieces,
    {
        self.info.pieces.as_slice()
    }

    /// The length of the single file, where the torrent has one file.
    pub fn length(&self) -> (r: Option<u64>)
        ensures
            opt_u64(r) == self@.info.length,
    {
        self.info.length
    }

    /// The files, where the torrent has several.
    pub fn files(&self) -> (r: Option<&Vec<File>>)
        ensures
            match r {
                Some(v) => self@.info.files == Some(files_model(v@)),
                None => self@.info.files is None,
            },
    {
        match &self.info.files {
            Some(v) => Some(v),
            None => None,
        }
    }
}

/// The key `4:info` as it stands in a metainfo file.
pub open spec fn info_key_text() -> Seq<u8> {
    seq![52u8, 58, 105, 110, 102, 111]
}

/// `begin` is the offset of a `d` right after the key `4:info`.
pub open spec fn opens_info(b: Seq<u8>, begin: int) -> bool {
    6 <= begin < b.len() && b[begin] == 100 && b.subrange(begin - 6, begin) == info_key_text()
}

proof fn lemma_leading_digit(s: Seq<u8>)
    requires
        s.len() >= 1,
        all_digits_of(s),
        s[0] != 48,
    ensures
        digits_value(s) >= 1,
        s.len() >= 2 ==> digits_value(s) >= 10,
    decreases s.len(),
{
    if s.len() >= 2 {
        let t = s.drop_last();
        assert(t[0] == s[0]);
        assert(all_digits_of(t));
        lemma_leading_digit(t);
    }
}

pub open spec fn all_digits_of(s: Seq<u8>) -> bool {
    forall|i: int| 0 <= i < s.len() ==> 48 <= #[trigger] s[i] <= 57
}

/// The key token `info` takes the six bytes `4:info`.
proof fn lemma_info_key_token(b: Seq<u8>, pos: int)
    requires
        token_at(b, pos) == Ok::<(SToken, int), TokenError>((SToken::Bytes(key_info()), token_at(b, pos)->Ok_0.1)),
    ensures
        token_at(b, pos)->Ok_0.1 == pos + 6,
        b.subrange(pos, pos + 6) == info_key_text(),
{
    crate::token::lemma_find_bounds(b, pos, 58);
    let c = find_from(b, pos, 58);
    let p = b.subrange(pos, c);
    assert(b[pos] != 58);
    assert(p.len() >= 1);
    assert(all_digits_of(p));
    assert(digits_value(p) == 4) by {
        assert(b.subrange(c + 1, c + 1 + digits_value(p) as int).len() == 4);
    }
    if p.len() >= 2 {
        lemma_leading_digit(p);
    }
    assert(p.len() == 1);
    assert(p.drop_last() =~= Seq::<u8>::empty());
    assert(b[pos] == 52);
    assert(b.subrange(c + 1, c + 5) == key_info());
    assert(b.subrange(pos, pos + 6) =~= info_key_text()) by {
        assert(b.subrange(pos, pos + 6)[2] == b.subrange(c + 1, c + 5)[0]);
        assert(b.subrange(pos, pos + 6)[3] == b.subrange(c + 1, c + 5)[1]);
        assert(b.subrange(pos, pos + 6)[4] == b.subrange(c + 1, c + 5)[2]);
        assert(b.subrange(pos, pos + 6)[5] == b.subrange(c + 1, c + 5)[3]);
    }
}

pub open spec fn inside_info(p: TorrentBuilderStateKind) -> bool {
    p == TorrentBuilderStateKind::Info || p == TorrentBuilderStateKind::Files
        || p == TorrentBuilderStateKind::SingularFile || p == TorrentBuilderStateKind::SingularFilePath
}

/// The digest of the `info` dictionary covers its bytes, from the `d`
/// right after the key `4:info` to its `e`.
pub open spec fn digest_of_info_span(b: Seq<u8>, i: InfoModel) -> bool {
    &&& i.begin < i.end < b.len()
    &&& opens_info(b, i.begin)
    &&& b[i.end] == 101
    &&& i.info_hash == sha1_of(info_slice(b, i.begin, i.end))
}

pub open spec fn hash_facts(b: Seq<u8>, pos: int, st: BuildState) -> bool {
    &&& st.info_done ==> digest_of_info_span(b, st.t.info)
    &&& inside_info(st.phase) ==> st.info_begin < pos && opens_info(b, st.info_begin)
}

proof fn lemma_key_step_keeps_hash(b: Seq<u8>, pos: int, st: BuildState, k: Seq<u8>)
    requires
        0 <= pos,
        hash_facts(b, pos, st),
    ensures
        st.phase == TorrentBuilderStateKind::MetaInfo ==> (meta_key_spec(b, pos, k, st) matches Ok((n, st2)) ==> n > pos ==> (st2.info_done == st.info_done && st2.t.info.info_hash == st.t.info.info_hash
            && st2.t.info.begin == st.t.info.begin && st2.t.info.end == st.t.info.end
            && (inside_info(st2.phase) ==> k == key_info() && st2.info_begin == pos && pos < n && b[pos] == 100))),
        info_key_spec(b, pos, k, st) matches Ok((n, st2)) ==> n > pos ==> (st2.info_done == st.info_done && st2.t.info.info_hash == st.t.info.info_hash
            && st2.t.info.begin == st.t.info.begin && st2.t.info.end == st.t.info.end
            && st2.info_begin == st.info_begin && (st2.phase == st.phase || st2.phase == TorrentBuilderStateKind::Files)),
        file_key_spec(b, pos, k, st) matches Ok((n, st2)) ==> n > pos ==> (st2.info_done == st.info_done && st2.t.info.info_hash == st.t.info.info_hash
            && st2.t.info.begin == st.t.info.begin && st2.t.info.end == st.t.info.end
            && st2.info_begin == st.info_begin && (st2.phase == st.phase || st2.phase == TorrentBuilderStateKind::SingularFilePath)),
{
}

proof fn lemma_build_hash(b: Seq<u8>, pos: int, st: BuildState)
    requires
        0 <= pos,
        build_from(b, pos, st) is Ok,
        hash_facts(b, pos, st),
    ensures
        digest_of_info_span(b, build_from(b, pos, st)->Ok_0.info),
    decreases b.len() - pos,
{
    if st.phase != TorrentBuilderStateKind::Finished {
        let (n, st2) = build_step(b, pos, st)->Ok_0;
        assert(pos < n <= b.len());
        match tok(b, pos) {
            Ok((SToken::Bytes(k), next)) => {
                crate::token::lemma_token_advance(b, pos);
                lemma_key_step_keeps_hash(b, next, st, k);
                if st.phase == TorrentBuilderStateKind::MetaInfo && k == key_info() {
                    lemma_info_key_token(b, pos);
                }
            },
            Ok((SToken::End, next)) => {
                if st.phase == TorrentBuilderStateKind::Info {
                    assert(b[pos] == 101);
                    assert(digest_of_info_span(b, st2.t.info)) by {
                        assert(0 <= st.info_begin < pos < b.len());
                    }
                }
            },
            _ => {},
        }
        assert(hash_facts(b, n, st2));
        lemma_build_hash(b, n, st2);
    }
}

/// The infohash of a torrent that was read is the SHA-1 of the bytes of
/// its `info` dictionary as they stand in the file, from the `d` right
/// after the key `4:info` to the `e` that closes it: no re-encoding.
pub proof fn law_infohash_is_digest_of_info_bytes(b: Seq<u8>)
    requires
        build_spec(b) is Ok,
    ensures
        digest_of_info_span(b, build_spec(b)->Ok_0.info),
{
    lemma_build_hash(b, 0, initial_state());
}

/// What stands around the `info` dictionary (unknown keys, their order,
/// the announce URL) does not change the infohash: two files whose `info`
/// dictionaries have the same bytes have the same infohash.
pub proof fn law_infohash_ignores_other_keys(b1: Seq<u8>, b2: Seq<u8>)
    requires
        build_spec(b1) is Ok,
        build_spec(b2) is Ok,
        info_slice(b1, build_spec(b1)->Ok_0.info.begin, build_spec(b1)->Ok_0.info.end)
            == info_slice(b2, build_spec(b2)->Ok_0.info.begin, build_spec(b2)->Ok_0.info.end),
    ensures
        build_spec(b1)->Ok_0.info.info_hash == build_spec(b2)->Ok_0.info.info_hash,
{
    law_infohash_is_digest_of_info_bytes(b1);
    law_infohash_is_digest_of_info_bytes(b2);
}

impl Torrent {
    /// Offsets of the `d` and of the `e` of the `info` dictionary in the
    /// file the torrent was read from.
    pub fn info_span(&self) -> (r: (usize, usize))
        ensures
            r.0 == self@.info.begin,
            r.1 == self@.info.end,
    {
        (self.info.info_begin, self.info.info_end)
    }
}

/// The sum of the lengths of the files.
pub open spec fn files_total(fs: Seq<FileModel>) -> int
    decreases fs.len(),
{
    if fs.len() == 0 {
        0
    } else {
        files_total(fs.drop_last()) + fs.last().length
    }
}

/// The number of bytes the torrent holds: its length, or the sum of the
/// lengths of its files, as far as a `u64` reaches.
pub open spec fn total_length_spec(i: InfoModel) -> int {
    let t = match (i.length, i.files) {
        (Some(l), _) => l,
        (None, Some(fs)) => files_total(fs),
        (None, None) => 0,
    };
    if t > u64::MAX {
        u64::MAX as int
    } else {
        t
    }
}

proof fn lemma_files_total_nonneg(fs: Seq<FileModel>)
    requires
        forall|i: int| 0 <= i < fs.len() ==> #[trigger] fs[i].length >= 0,
    ensures
        files_total(fs) >= 0,
    decreases fs.len(),
{
    if fs.len() > 0 {
        lemma_files_total_nonneg(fs.drop_last());
    }
}

impl Torrent {
    pub fn total_length(&self) -> (r: u64)
        ensures
            r == total_length_spec(self@.info),
    {
        match self.info.length {
            Some(l) => l,
            None => match &self.info.files {
                None => 0,
                Some(fs) => {
                    let ghost m = files_model(fs@);
                    let mut sum: u64 = 0;
                    let mut i: usize = 0;
                    let mut capped = false;
                    while i < fs.len()
                        invariant
                            i <= fs@.len(),
                            m == files_model(fs@),
                            capped ==> files_total(m.subrange(0, i as int)) > u64::MAX,
                            !capped ==> sum == files_total(m.subrange(0, i as int)),
                        decreases fs.len() - i,
                    {
                        let ghost pre = m.subrange(0, i + 1);
                        assert(pre.drop_last() =~= m.subrange(0, i as int));
                        assert(pre.last() == fs@[i as int].model());
                        let l = fs[i].length();
                        if !capped {
                            if sum > u64::MAX - l {
                                capped = true;
                            } else {
                                sum = sum + l;
                            }
                        }
                        i = i + 1;
                    }
                    assert(m.subrange(0, fs@.len() as int) =~= m);
                    if capped {
                        u64::MAX
                    } else {
                        proof {
                            assert forall|j: int| 0 <= j < m.len() implies #[trigger] m[j].length >= 0 by {
                                assert(m[j] == fs@[j].model());
                            }
                            lemma_files_total_nonneg(m);
                        }
                        sum
                    }
                },
            },
        }
    }
}

} // verus!
