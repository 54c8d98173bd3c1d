use vstd::prelude::*;
use bytes::BytesMut;
use crate::value::{Value, BValue};
use crate::token::{SToken, Token, TokenError, token_at, read_token, lemma_token_advance, lemma_token_extend};
use crate::stack::{SContainer, Stack, StructureKind, StackError, push_value_spec, pop_spec, opt_view};

verus! {

broadcast use vstd::std_specs::vec::group_vec_axioms, vstd::seq::group_seq_axioms;

/// Room that a new streaming decoder reserves for its buffer.
pub const DEFAULT_CAPACITY: usize = 4096;

/// Why a bencode document could not be decoded.
#[derive(Debug, Clone, Copy, PartialEq, Eq, Structural)]
pub enum DecodeError {
    InvalidSyntax,
    ValueTooLarge,
    InvalidStructure(StructureKind),
    UnexpectedEof,
    TrailingDataInBuffer,
}

/// Where reading a document from its start has got to.
pub enum Parse {
    /// The root value, and the offset just after it.
    Complete(BValue, int),
    Failed(DecodeError),
    /// The bytes end before the root value does.
    Incomplete,
}

pub open spec fn token_error(e: TokenError) -> DecodeError {
    match e {
        TokenError::ValueTooLarge => DecodeError::ValueTooLarge,
        TokenError::InvalidSyntax => DecodeError::InvalidSyntax,
        _ => DecodeError::UnexpectedEof,
    }
}

pub open spec fn lift(r: Result<(Seq<SContainer>, Option<BValue>), StructureKind>) -> Result<(Seq<SContainer>, Option<BValue>), DecodeError> {
    match r {
        Ok(x) => Ok(x),
        Err(k) => Err(DecodeError::InvalidStructure(k)),
    }
}

/// What one token does to the stack of open containers.
pub open spec fn step(s: Seq<SContainer>, t: SToken) -> Result<(Seq<SContainer>, Option<BValue>), DecodeError> {
    match t {
        SToken::Int(i) => lift(push_value_spec(s, BValue::Int(i))),
        SToken::Bytes(x) => lift(push_value_spec(s, BValue::Bytes(x))),
        SToken::BeginList => Ok((s.push(SContainer::List(Seq::empty())), None)),
        SToken::BeginDict => Ok((s.push(SContainer::Dict(Seq::empty(), None)), None)),
        SToken::End => if s.len() == 0 {
            Err(DecodeError::InvalidSyntax)
        } else {
            lift(pop_spec(s))
        },
    }
}

/// Reads tokens of `b` from `pos` on, with `s` open, until the root value
/// is complete, a token or the structure is wrong, or the bytes run out.
pub open spec fn parse_from(b: Seq<u8>, pos: int, s: Seq<SContainer>) -> Parse
    decreases b.len() - pos,
{
    match token_at(b, pos) {
        Err(e) => if e.is_unfinished() {
            Parse::Incomplete
        } else {
            Parse::Failed(token_error(e))
        },
        Ok((t, next)) => if next <= pos || next > b.len() {
            Parse::Incomplete
        } else {
            match step(s, t) {
                Err(e) => Parse::Failed(e),
                Ok((_, Some(v))) => Parse::Complete(v, next),
                Ok((s2, None)) => parse_from(b, next, s2),
            }
        },
    }
}

/// Reading a document from the start of `b`.
pub open spec fn parse(b: Seq<u8>) -> Parse {
    parse_from(b, 0, Seq::empty())
}

/// The value that a whole buffer holds: one root value that ends where
/// the buffer ends.
pub open spec fn decode_spec(b: Seq<u8>) -> Result<BValue, DecodeError> {
    match parse(b) {
        Parse::Complete(v, end) => if end == b.len() {
            Ok(v)
        } else {
            Err(DecodeError::TrailingDataInBuffer)
        },
        Parse::Failed(e) => Err(e),
        Parse::Incomplete => Err(DecodeError::UnexpectedEof),
    }
}

pub open spec fn decode_matches(r: Result<Value, DecodeError>, expected: Result<BValue, DecodeError>) -> bool {
    match expected {
        Ok(v) => r is Ok && r->Ok_0@ == v,
        Err(e) => r == Err::<Value, DecodeError>(e),
    }
}

fn map_stack(r: Result<Option<Value>, StackError>) -> (out: Result<Option<Value>, DecodeError>)
    ensures
        match r {
            Ok(o) => out == Ok::<Option<Value>, DecodeError>(o),
            Err(e) => out == Err::<Option<Value>, DecodeError>(DecodeError::InvalidStructure(e.spec_kind())),
        },
{
    match r {
        Ok(o) => Ok(o),
        Err(e) => Err(DecodeError::InvalidStructure(e.kind())),
    }
}

/// Applies one token to the stack (see `step`).
fn apply_token(stack: &mut Stack, tok: Token) -> (r: Result<Option<Value>, DecodeError>)
    ensures
        match step(old(stack)@, tok.spec_token()) {
            Ok((s2, out)) => r is Ok && final(stack)@ == s2 && opt_view(r->Ok_0) == out,
            Err(e) => r == Err::<Option<Value>, DecodeError>(e),
        },
{
    match tok {
        Token::Int(i, _) => map_stack(stack.push_value(Value::Int(i))),
        Token::String(s, _) => map_stack(stack.push_value(Value::String(s))),
        Token::BeginList(_) => {
            stack.push_list();
            Ok(None)
        },
        Token::BeginDict(_) => {
            stack.push_dict();
            Ok(None)
        },
        Token::EndObject(_) => {
            if stack.depth() == 0 {
                Err(DecodeError::InvalidSyntax)
            } else {
                map_stack(stack.pop_container())
            }
        },
    }
}

fn map_token_error(e: TokenError) -> (r: DecodeError)
    ensures
        r == token_error(e),
{
    match e {
        TokenError::ValueTooLarge => DecodeError::ValueTooLarge,
        TokenError::InvalidSyntax => DecodeError::InvalidSyntax,
        _ => DecodeError::UnexpectedEof,
    }
}

/// Decodes a whole buffer that holds exactly one bencode value.
pub fn decode(b: &[u8]) -> (r: Result<Value, DecodeError>)
    ensures
        decode_matches(r, decode_spec(b@)),
{
    let mut stack = Stack::new();
    let mut pos: usize = 0;
    let len = b.len();
    loop
        invariant
            pos <= b@.len(),
            len == b@.len(),
            parse(b@) == parse_from(b@, pos as int, stack@),
        decreases b@.len() - pos,
    {
        match read_token(b, pos) {
            Err(e) => {
                return Err(map_token_error(e));
            },
            Ok((tok, n)) => {
                assert(token_at(b@, pos as int) is Ok);
                proof {
                    lemma_token_advance(b@, pos as int);
                }
                pos = pos + n;
                match apply_token(&mut stack, tok) {
                    Err(e) => {
                        return Err(e);
                    },
                    Ok(Some(v)) => {
                        if pos == len {
                            return Ok(v);
                        } else {
                            return Err(DecodeError::TrailingDataInBuffer);
                        }
                    },
                    Ok(None) => {},
                }
            },
        }
    }
}

/// A token that is complete in `b` moves the reading on in the same way
/// whatever bytes follow `b`.
proof fn lemma_step_extend(b: Seq<u8>, x: Seq<u8>, pos: int, s: Seq<SContainer>, s2: Seq<SContainer>)
    requires
        token_at(b, pos) is Ok,
        step(s, token_at(b, pos)->Ok_0.0) == Ok::<(Seq<SContainer>, Option<BValue>), DecodeError>((s2, None)),
    ensures
        parse_from(b + x, pos, s) == parse_from(b + x, token_at(b, pos)->Ok_0.1, s2),
{
    lemma_token_extend(b, x, pos);
    lemma_token_advance(b, pos);
}

fn is_unfinished(e: &TokenError) -> (r: bool)
    ensures
        r == e.is_unfinished(),
{
    match e {
        TokenError::UnfinishedInt => true,
        TokenError::UnfinishedString(_, _, _) => true,
        TokenError::MissingColonInString => true,
        TokenError::EndOfBuffer => true,
        _ => false,
    }
}

#[verifier::external_type_specification]
#[verifier::external_body]
pub struct ExBytesMut(BytesMut);

/// The bytes that a `BytesMut` holds.
pub uninterp spec fn buffer_bytes(b: BytesMut) -> Seq<u8>;

/// Relies on bytes' `BytesMut::with_capacity`: a new buffer holds no
/// bytes. It panics for a capacity beyond `isize::MAX`.
#[verifier::external_body]
fn new_buffer(cap: usize) -> (r: BytesMut)
    requires
        cap <= isize::MAX,
    ensures
        buffer_bytes(r) == Seq::<u8>::empty(),
{
    BytesMut::with_capacity(cap)
}

/// Relies on bytes' `BytesMut::extend_from_slice`: the bytes are appended.
/// It panics where the buffer would outgrow `isize::MAX`.
#[verifier::external_body]
fn append_bytes(b: &mut BytesMut, s: &[u8])
    requires
        buffer_bytes(*old(b)).len() + s@.len() <= isize::MAX,
    ensures
        buffer_bytes(*final(b)) == buffer_bytes(*old(b)) + s@,
{
    b.extend_from_slice(s)
}

/// Relies on `<BytesMut as Deref>::deref`: the bytes held, as a slice.
#[verifier::external_body]
fn buffer_slice(b: &BytesMut) -> (r: &[u8])
    ensures
        r@ == buffer_bytes(*b),
{
    b
}

/// A decoder that takes its input in chunks, as a reader hands them out.
/// It keeps every byte it was given; the tokens before `pos` have been
/// applied to `stack`.
pub struct Decoder {
    buf: BytesMut,
    pos: usize,
    stack: Stack,
}

/// What a streaming decoder has reached.
pub enum Step {
    /// The bytes so far end inside the root value: give it more.
    Pending(Decoder),
    Ready(Value),
    Failed(DecodeError),
}

impl Decoder {
    /// Every byte given to the decoder so far.
    pub closed spec fn fed(&self) -> Seq<u8> {
        buffer_bytes(self.buf)
    }

    /// The tokens before `pos` were read and applied to `stack`: reading
    /// from there gives what reading from the start gives, whatever bytes
    /// come next.
    pub closed spec fn wf(&self) -> bool {
        &&& self.pos <= self.fed().len()
        &&& forall|x: Seq<u8>| #[trigger] parse(self.fed() + x) == parse_from(self.fed() + x, self.pos as int, self.stack@)
    }

    pub fn new() -> (r: Decoder)
        ensures
            r.wf(),
            r.fed() == Seq::<u8>::empty(),
    {
        Decoder::with_capacity(DEFAULT_CAPACITY)
    }

    pub fn with_capacity(cap: usize) -> (r: Decoder)
        requires
            cap <= isize::MAX,
        ensures
            r.wf(),
            r.fed() == Seq::<u8>::empty(),
    {
        let buf = new_buffer(cap);
        let stack = Stack::new();
        let r = Decoder { buf, pos: 0, stack };
        assert forall|x: Seq<u8>| #[trigger] parse(r.fed() + x) == parse_from(r.fed() + x, r.pos as int, r.stack@) by {
            assert(r.fed() + x =~= x);
        }
        r
    }

    /// Number of bytes given to the decoder so far.
    pub fn buffered(&self) -> (r: usize)
        ensures
            r == self.fed().len(),
    {
        buffer_slice(&self.buf).len()
    }

    /// Appends the bytes that a reader handed out.
    pub fn refill(&mut self, chunk: &[u8])
        requires
            old(self).wf(),
            old(self).fed().len() + chunk@.len() <= isize::MAX,
        ensures
            final(self).wf(),
            final(self).fed() == old(self).fed() + chunk@,
    {
        let ghost old_buf = self.fed();
        append_bytes(&mut self.buf, chunk);
        assert forall|x: Seq<u8>| #[trigger] parse(self.fed() + x) == parse_from(self.fed() + x, self.pos as int, self.stack@) by {
            assert(self.fed() + x =~= old_buf + (chunk@ + x));
            assert(parse(old_buf + (chunk@ + x)) == parse_from(old_buf + (chunk@ + x), self.pos as int, self.stack@));
        }
    }

    /// Reads as far as the bytes given so far allow.
    pub fn decode(self) -> (r: Step)
        requires
            self.wf(),
        ensures
            r matches Step::Pending(d) ==> d.wf(),
            match parse(self.fed()) {
                Parse::Complete(v, end) => if end == self.fed().len() {
                    r is Ready && r->Ready_0@ == v
                } else {
                    r is Failed && r->Failed_0 == DecodeError::TrailingDataInBuffer
                },
                Parse::Failed(e) => r is Failed && r->Failed_0 == e,
                Parse::Incomplete => r is Pending && r->Pending_0.fed() == self.fed(),
            },
    {
        let ghost fed = self.fed();
        assert(fed + Seq::<u8>::empty() =~= fed);
        let Decoder { buf, pos, stack } = self;
        let mut pos = pos;
        let mut stack = stack;
        let len = buffer_slice(&buf).len();
        loop
            invariant
                pos <= fed.len(),
                len == fed.len(),
                buffer_bytes(buf) == fed,
                self.fed() == fed,
                fed + Seq::<u8>::empty() == fed,
                forall|x: Seq<u8>| #[trigger] parse(fed + x) == parse_from(fed + x, pos as int, stack@),
            decreases fed.len() - pos,
        {
            assert(parse(fed + Seq::<u8>::empty()) == parse_from(fed + Seq::<u8>::empty(), pos as int, stack@));
            match read_token(buffer_slice(&buf), pos) {
                Err(e) => {
                    assert(token_at(fed, pos as int) == Err::<(SToken, int), TokenError>(e));
                    assert(parse(fed) == parse_from(fed, pos as int, stack@));
                    if is_unfinished(&e) {
                        assert(parse(fed) == Parse::Incomplete);
                        let d = Decoder { buf, pos, stack };
                        assert(d.wf());
                        return Step::Pending(d);
                    }
                    assert(parse(fed) == Parse::Failed(token_error(e)));
                    let de = map_token_error(e);
                    return Step::Failed(de);
                },
                Ok((tok, n)) => {
                    assert(token_at(fed, pos as int) is Ok);
                    proof {
                        lemma_token_advance(fed, pos as int);
                    }
                    let ghost old_pos = pos as int;
                    let ghost old_stack = stack@;
                    assert(parse(fed) == parse_from(fed, old_pos, old_stack));
                    pos = pos + n;
                    match apply_token(&mut stack, tok) {
                        Err(e) => {
                            assert(parse(fed) == Parse::Failed(e));
                            return Step::Failed(e);
                        },
                        Ok(Some(v)) => {
                            assert(parse(fed) == Parse::Complete(v@, pos as int));
                            if pos == len {
                                return Step::Ready(v);
                            } else {
                                return Step::Failed(DecodeError::TrailingDataInBuffer);
                            }
                        },
                        Ok(None) => {
                            assert forall|x: Seq<u8>| #[trigger] parse(fed + x) == parse_from(fed + x, pos as int, stack@) by {
                                lemma_step_extend(fed, x, old_pos, old_stack, stack@);
                            }
                        },
                    }
                },
            }
        }
    }

    /// Ends the input: what the decoder holds must be exactly one value.
    pub fn finish(self) -> (r: Result<Value, DecodeError>)
        requires
            self.wf(),
        ensures
            decode_matches(r, decode_spec(self.fed())),
    {
        match self.decode() {
            Step::Pending(_) => Err(DecodeError::UnexpectedEof),
            Step::Ready(v) => Ok(v),
            Step::Failed(e) => Err(e),
        }
    }
}

/// A complete root value ends after where reading began and within the bytes.
pub proof fn lemma_complete_bounds(b: Seq<u8>, pos: int, s: Seq<SContainer>)
    requires
        parse_from(b, pos, s) is Complete,
    ensures
        pos < parse_from(b, pos, s)->Complete_1 <= b.len(),
    decreases b.len() - pos,
{
    let (t, next) = token_at(b, pos)->Ok_0;
    match step(s, t) {
        Ok((s2, None)) => {
            lemma_complete_bounds(b, next, s2);
        },
        _ => {},
    }
}

/// Once reading from `pos` has an outcome in `b` (a value or an error),
/// bytes added after `b` do not change it.
pub proof fn lemma_parse_extend(b: Seq<u8>, x: Seq<u8>, pos: int, s: Seq<SContainer>)
    requires
        !(parse_from(b, pos, s) is Incomplete),
    ensures
        parse_from(b + x, pos, s) == parse_from(b, pos, s),
    decreases b.len() - pos,
{
    lemma_token_extend(b, x, pos);
    if token_at(b, pos) is Ok {
        lemma_token_advance(b, pos);
        let (t, next) = token_at(b, pos)->Ok_0;
        match step(s, t) {
            Ok((s2, None)) => {
                lemma_parse_extend(b, x, next, s2);
            },
            _ => {},
        }
    }
}

/// Reading in chunks gives what reading the whole gives: where the bytes
/// up to a chunk boundary `k` already have an outcome, the whole of `b`
/// has the same one. So a streaming decoder, which stops at the first
/// boundary with an outcome, agrees with a decoder of the whole buffer.
pub proof fn law_chunk_boundary(b: Seq<u8>, k: int)
    requires
        0 <= k <= b.len(),
        !(parse(b.subrange(0, k)) is Incomplete),
    ensures
        parse(b) == parse(b.subrange(0, k)),
{
    let p = b.subrange(0, k);
    let x = b.subrange(k, b.len() as int);
    assert(p + x =~= b);
    lemma_parse_extend(p, x, 0, Seq::empty());
}

/// When the whole of `b` decodes to a value, every chunk boundary before
/// its end leaves a streaming decoder waiting for more, and the last one
/// gives that value: the value does not depend on how `b` was split.
pub proof fn law_chunking_keeps_value(b: Seq<u8>, k: int)
    requires
        0 <= k <= b.len(),
        decode_spec(b) is Ok,
    ensures
        k < b.len() ==> parse(b.subrange(0, k)) is Incomplete,
        k == b.len() ==> parse(b.subrange(0, k)) == Parse::Complete(decode_spec(b)->Ok_0, b.len() as int),
{
    let p = b.subrange(0, k);
    if k == b.len() {
        assert(p =~= b);
    } else if !(parse(p) is Incomplete) {
        law_chunk_boundary(b, k);
        if parse(p) is Complete {
            lemma_complete_bounds(p, 0, Seq::empty());
        }
    }
}

/// `TrailingDataInBuffer` comes only where a whole root value ends before
/// the buffer does.
pub proof fn law_trailing_means_more_bytes(b: Seq<u8>)
    requires
        decode_spec(b) == Err::<BValue, DecodeError>(DecodeError::TrailingDataInBuffer),
    ensures
        parse(b) is Complete,
        parse(b)->Complete_1 < b.len(),
{
    lemma_failed_not_trailing(b, 0, Seq::empty());
    if parse(b) is Complete {
        lemma_complete_bounds(b, 0, Seq::empty());
    }
}

/// Reading never fails with `TrailingDataInBuffer`: only the check after
/// the root value gives it.
proof fn lemma_failed_not_trailing(b: Seq<u8>, pos: int, s: Seq<SContainer>)
    ensures
        parse_from(b, pos, s) is Failed ==> parse_from(b, pos, s)->Failed_0 != DecodeError::TrailingDataInBuffer,
    decreases b.len() - pos,
{
    if token_at(b, pos) is Ok {
        let (t, next) = token_at(b, pos)->Ok_0;
        if pos < next <= b.len() {
            match step(s, t) {
                Ok((s2, None)) => {
                    lemma_failed_not_trailing(b, next, s2);
                },
                _ => {},
            }
        }
    }
}

/// The chunks one after the other.
pub open spec fn concat_chunks(ch: Seq<Seq<u8>>) -> Seq<u8>
    decreases ch.len(),
{
    if ch.len() == 0 {
        Seq::empty()
    } else {
        concat_chunks(ch.drop_last()) + ch.last()
    }
}

/// What a streaming decoder that holds `fed` ends with when it is given
/// the chunks from the `i`-th on: it reads after each chunk, stops at the
/// first outcome, and ends the input after the last chunk.
pub open spec fn stream_from(ch: Seq<Seq<u8>>, i: int, fed: Seq<u8>) -> Result<BValue, DecodeError>
    decreases ch.len() - i,
{
    match parse(fed) {
        Parse::Complete(v, end) => if end == fed.len() {
            Ok(v)
        } else {
            Err(DecodeError::TrailingDataInBuffer)
        },
        Parse::Failed(e) => Err(e),
        Parse::Incomplete => if i < 0 || i >= ch.len() {
            Err(DecodeError::UnexpectedEof)
        } else {
            stream_from(ch, i + 1, fed + ch[i])
        },
    }
}

/// What a streaming decoder ends with when its source hands out `ch`.
pub open spec fn stream_spec(ch: Seq<Seq<u8>>) -> Result<BValue, DecodeError> {
    stream_from(ch, 0, Seq::empty())
}

proof fn lemma_concat_split(ch: Seq<Seq<u8>>, i: int)
    requires
        0 <= i <= ch.len(),
    ensures
        concat_chunks(ch) == concat_chunks(ch.subrange(0, i)) + concat_chunks(ch.subrange(i, ch.len() as int)),
    decreases ch.len(),
{
    if i == ch.len() {
        assert(ch.subrange(0, i) =~= ch);
        assert(ch.subrange(i, ch.len() as int) =~= Seq::<Seq<u8>>::empty());
        assert(concat_chunks(ch) + Seq::<u8>::empty() =~= concat_chunks(ch));
    } else {
        let dl = ch.drop_last();
        lemma_concat_split(dl, i);
        assert(dl.subrange(0, i) =~= ch.subrange(0, i));
        let tail = ch.subrange(i, ch.len() as int);
        assert(tail.drop_last() =~= dl.subrange(i, dl.len() as int));
        assert(tail.last() == ch.last());
        assert(concat_chunks(ch) =~= concat_chunks(ch.subrange(0, i)) + concat_chunks(tail));
    }
}

proof fn lemma_concat_step(ch: Seq<Seq<u8>>, i: int)
    requires
        0 <= i < ch.len(),
    ensures
        concat_chunks(ch.subrange(0, i + 1)) == concat_chunks(ch.subrange(0, i)) + ch[i],
{
    assert(ch.subrange(0, i + 1).drop_last() =~= ch.subrange(0, i));
}

proof fn lemma_stream(ch: Seq<Seq<u8>>, i: int)
    requires
        0 <= i <= ch.len(),
        decode_spec(concat_chunks(ch)) != Err::<BValue, DecodeError>(DecodeError::TrailingDataInBuffer),
    ensures
        stream_from(ch, i, concat_chunks(ch.subrange(0, i))) == decode_spec(concat_chunks(ch)),
    decreases ch.len() - i,
{
    let b = concat_chunks(ch);
    let fed = concat_chunks(ch.subrange(0, i));
    let rest = concat_chunks(ch.subrange(i, ch.len() as int));
    lemma_concat_split(ch, i);
    if !(parse(fed) is Incomplete) {
        lemma_parse_extend(fed, rest, 0, Seq::empty());
        if parse(fed) is Complete {
            lemma_complete_bounds(fed, 0, Seq::empty());
        }
    } else if i == ch.len() {
        assert(ch.subrange(0, i) =~= ch);
    } else {
        lemma_concat_step(ch, i);
        lemma_stream(ch, i + 1);
    }
}

/// However a source splits the input into refills, a streaming decoder
/// ends with what decoding the whole input gives. The one exception is an
/// input with bytes after its value: a decoder whose chunk ends right
/// after the value stops there with the value.
pub proof fn law_chunking_never_changes_the_result(ch: Seq<Seq<u8>>)
    requires
        decode_spec(concat_chunks(ch)) != Err::<BValue, DecodeError>(DecodeError::TrailingDataInBuffer),
    ensures
        stream_spec(ch) == decode_spec(concat_chunks(ch)),
{
    assert(ch.subrange(0, 0) =~= Seq::<Seq<u8>>::empty());
    lemma_stream(ch, 0);
}

pub open spec fn chunks_view(ch: Seq<Vec<u8>>) -> Seq<Seq<u8>> {
    Seq::new(ch.len(), |i: int| ch[i]@)
}

/// Decodes input that a source hands out as `chunks`, one refill each,
/// with a streaming decoder.
pub fn decode_chunks(chunks: &Vec<Vec<u8>>) -> (r: Result<Value, DecodeError>)
    requires
        concat_chunks(chunks_view(chunks@)).len() <= isize::MAX,
    ensures
        decode_matches(r, stream_spec(chunks_view(chunks@))),
{
    let ghost ch = chunks_view(chunks@);
    let mut dec = Decoder::new();
    let mut i: usize = 0;
    assert(ch.subrange(0, 0) =~= Seq::<Seq<u8>>::empty());
    loop
        invariant
            i <= chunks@.len(),
            ch == chunks_view(chunks@),
            concat_chunks(ch).len() <= isize::MAX,
            dec.wf(),
            dec.fed() == concat_chunks(ch.subrange(0, i as int)),
            stream_spec(ch) == stream_from(ch, i as int, dec.fed()),
        decreases chunks@.len() - i,
    {
        let ghost fed = dec.fed();
        match dec.decode() {
            Step::Ready(v) => {
                return Ok(v);
            },
            Step::Failed(e) => {
                return Err(e);
            },
            Step::Pending(d) => {
                dec = d;
            },
        }
        if i == chunks.len() {
            return Err(DecodeError::UnexpectedEof);
        }
        proof {
            lemma_concat_step(ch, i as int);
            lemma_concat_split(ch, i + 1);
        }
        dec.refill(chunks[i].as_slice());
        i = i + 1;
    }
}

} // verus!
