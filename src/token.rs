use vstd::prelude::*;
use vstd::slice::slice_subrange;
use vstd::slice::slice_to_vec;
use atoi::FromRadix10SignedChecked;

verus! {

broadcast use vstd::seq::group_seq_axioms;

/// Longest accepted text of a number: the digits of an integer with its
/// sign, or the digits of a string length.
pub const MAX_NUMBER_TEXT: usize = 21;

pub open spec fn is_digit(c: u8) -> bool {
    48 <= c <= 57
}

/// Index of the first `c` at or after `from`, or `b.len()` when there is none.
pub open spec fn find_from(b: Seq<u8>, from: int, c: u8) -> int
    decreases b.len() - from,
{
    if from < 0 || from >= b.len() {
        b.len() as int
    } else if b[from] == c {
        from
    } else {
        find_from(b, from + 1, c)
    }
}

/// Decimal value of a run of digits.
pub open spec fn digits_value(s: Seq<u8>) -> nat
    decreases s.len(),
{
    if s.len() == 0 {
        0
    } else {
        digits_value(s.drop_last()) * 10 + (s.last() - 48) as nat
    }
}

pub open spec fn all_digits(s: Seq<u8>) -> bool {
    forall|i: int| 0 <= i < s.len() ==> is_digit(#[trigger] s[i])
}

/// Number of bytes that form a sign at the start of `t` (`+` or `-`).
pub open spec fn sign_len(t: Seq<u8>) -> int {
    if t.len() > 0 && (t[0] == 43 || t[0] == 45) {
        1
    } else {
        0
    }
}

/// Number of consecutive digits in `t` from `from` on.
pub open spec fn digit_run(t: Seq<u8>, from: int) -> int
    decreases t.len() - from,
{
    if from < 0 || from >= t.len() || !is_digit(t[from]) {
        0
    } else {
        1 + digit_run(t, from + 1)
    }
}

/// The value of an optional sign and the digits that follow it.
pub open spec fn signed_text_value(t: Seq<u8>) -> int {
    let s = sign_len(t);
    let m = digits_value(t.subrange(s, s + digit_run(t, s))) as int;
    if s == 1 && t[0] == 45 {
        -m
    } else {
        m
    }
}

pub open spec fn fits_i64(v: int) -> bool {
    i64::MIN <= v <= i64::MAX
}

/// Relies on atoi's `FromRadix10SignedChecked` for `i64`: it reads an
/// optional sign and the longest run of digits after it, and hands back
/// the number of bytes read with the value, or `None` where the value
/// does not fit.
#[verifier::external_body]
fn parse_i64_prefix(text: &[u8]) -> (r: (Option<i64>, usize))
    ensures
        r.1 == sign_len(text@) + digit_run(text@, sign_len(text@)),
        r.0 == (if fits_i64(signed_text_value(text@)) {
            Some(signed_text_value(text@) as i64)
        } else {
            None::<i64>
        }),
{
    i64::from_radix_10_signed_checked(text)
}

/// The text of an integer: an optional `-`, then digits without a
/// leading zero (but for `0` itself), and never `-0`.
pub open spec fn int_text_ok(p: Seq<u8>) -> bool {
    let neg = p.len() > 0 && p[0] == 45;
    let d = if neg { p.subrange(1, p.len() as int) } else { p };
    &&& d.len() >= 1
    &&& all_digits(d)
    &&& d[0] == 48 ==> (d.len() == 1 && !neg)
}

pub open spec fn int_text_value(p: Seq<u8>) -> int {
    if p.len() > 0 && p[0] == 45 {
        -(digits_value(p.subrange(1, p.len() as int)) as int)
    } else {
        digits_value(p) as int
    }
}

/// The text of a string length: digits without a leading zero (but for `0`).
pub open spec fn len_text_ok(p: Seq<u8>) -> bool {
    &&& p.len() >= 1
    &&& all_digits(p)
    &&& p[0] == 48 ==> p.len() == 1
}

/// A token as the tokenizer sees it, without its position.
pub enum SToken {
    Int(int),
    Bytes(Seq<u8>),
    BeginList,
    BeginDict,
    End,
}

/// What can stop the tokenizer. The four last kinds mean that the buffer
/// ends inside a token (or before one): more bytes may complete it.
#[derive(Debug, Clone, Copy, PartialEq, Eq, Structural)]
pub enum TokenError {
    InvalidSyntax,
    ValueTooLarge,
    UnfinishedInt,
    UnfinishedString(usize, usize, usize),
    MissingColonInString,
    EndOfBuffer,
}

impl TokenError {
    pub open spec fn is_unfinished(self) -> bool {
        match self {
            TokenError::UnfinishedInt => true,
            TokenError::UnfinishedString(_, _, _) => true,
            TokenError::MissingColonInString => true,
            TokenError::EndOfBuffer => true,
            _ => false,
        }
    }
}

/// The token that starts at `pos` in `b`, with the position just after it.
pub open spec fn token_at(b: Seq<u8>, pos: int) -> Result<(SToken, int), TokenError> {
    if pos < 0 || pos >= b.len() {
        Err(TokenError::EndOfBuffer)
    } else if b[pos] == 105 {
        // 'i'
        let e = find_from(b, pos + 1, 101);
        let p = b.subrange(pos + 1, e);
        if e >= b.len() {
            Err(TokenError::UnfinishedInt)
        } else if p.len() > MAX_NUMBER_TEXT {
            Err(TokenError::ValueTooLarge)
        } else if !int_text_ok(p) || !fits_i64(int_text_value(p)) {
            Err(TokenError::InvalidSyntax)
        } else {
            Ok((SToken::Int(int_text_value(p)), e + 1))
        }
    } else if is_digit(b[pos]) {
        let c = find_from(b, pos, 58);
        let p = b.subrange(pos, c);
        let n = digits_value(p) as int;
        let have = b.len() - (c + 1);
        if c >= b.len() {
            Err(TokenError::MissingColonInString)
        } else if p.len() > MAX_NUMBER_TEXT {
            Err(TokenError::ValueTooLarge)
        } else if !len_text_ok(p) || !fits_i64(n) {
            Err(TokenError::InvalidSyntax)
        } else if have < n {
            Err(TokenError::UnfinishedString(pos as usize, n as usize, have as usize))
        } else {
            Ok((SToken::Bytes(b.subrange(c + 1, c + 1 + n)), c + 1 + n))
        }
    } else if b[pos] == 108 {
        Ok((SToken::BeginList, pos + 1))
    } else if b[pos] == 100 {
        Ok((SToken::BeginDict, pos + 1))
    } else if b[pos] == 101 {
        Ok((SToken::End, pos + 1))
    } else {
        Err(TokenError::InvalidSyntax)
    }
}

/// A token with the offset at which it begins in the buffer (for
/// `EndObject`, the offset of its `e`).
#[derive(Debug, PartialEq)]
pub enum Token {
    Int(i64, usize),
    String(Vec<u8>, usize),
    BeginList(usize),
    BeginDict(usize),
    EndObject(usize),
}

impl Token {
    pub open spec fn spec_token(&self) -> SToken {
        match self {
            Token::Int(i, _) => SToken::Int(*i as int),
            Token::String(s, _) => SToken::Bytes(s@),
            Token::BeginList(_) => SToken::BeginList,
            Token::BeginDict(_) => SToken::BeginDict,
            Token::EndObject(_) => SToken::End,
        }
    }

    pub open spec fn spec_pos(&self) -> int {
        match self {
            Token::Int(_, p) => *p as int,
            Token::String(_, p) => *p as int,
            Token::BeginList(p) => *p as int,
            Token::BeginDict(p) => *p as int,
            Token::EndObject(p) => *p as int,
        }
    }

    /// The kind of the token, for error reports.
    pub fn kind(&self) -> (r: TokenKind)
        ensures
            r == kind_of(self.spec_token()),
    {
        match self {
            Token::Int(_, _) => TokenKind::Int,
            Token::String(_, _) => TokenKind::String,
            Token::BeginList(_) => TokenKind::BeginList,
            Token::BeginDict(_) => TokenKind::BeginDict,
            Token::EndObject(_) => TokenKind::EndObject,
        }
    }
}

#[derive(Debug, Clone, Copy, PartialEq, Eq, Structural)]
pub enum TokenKind {
    Int,
    String,
    BeginList,
    BeginDict,
    EndObject,
}

pub open spec fn kind_of(t: SToken) -> TokenKind {
    match t {
        SToken::Int(_) => TokenKind::Int,
        SToken::Bytes(_) => TokenKind::String,
        SToken::BeginList => TokenKind::BeginList,
        SToken::BeginDict => TokenKind::BeginDict,
        SToken::End => TokenKind::EndObject,
    }
}

proof fn lemma_digit_run_full(t: Seq<u8>, from: int)
    requires
        0 <= from <= t.len(),
    ensures
        (digit_run(t, from) == t.len() - from) <==> all_digits(t.subrange(from, t.len() as int)),
        0 <= digit_run(t, from) <= t.len() - from,
    decreases t.len() - from,
{
    if from < t.len() {
        lemma_digit_run_full(t, from + 1);
        let a = t.subrange(from, t.len() as int);
        let b = t.subrange(from + 1, t.len() as int);
        assert(a.subrange(1, a.len() as int) =~= b);
        if all_digits(a) {
            assert forall|i: int| 0 <= i < b.len() implies is_digit(#[trigger] b[i]) by {
                assert(b[i] == a[i + 1]);
            }
            assert(is_digit(a[0]));
        }
        if digit_run(t, from) == t.len() - from {
            assert forall|i: int| 0 <= i < a.len() implies is_digit(#[trigger] a[i]) by {
                if i > 0 {
                    assert(a[i] == b[i - 1]);
                }
            }
        }
    } else {
        assert(t.subrange(from, t.len() as int).len() == 0);
    }
}

/// The integer text check of the tokenizer, in the terms of the atoi reader.
proof fn lemma_int_text(p: Seq<u8>, start: int)
    requires
        start == (if p.len() > 0 && p[0] == 45 { 1int } else { 0int }),
        start < p.len(),
        is_digit(p[start]),
    ensures
        sign_len(p) == start,
        (sign_len(p) + digit_run(p, sign_len(p)) == p.len()) ==> signed_text_value(p) == int_text_value(p),
        int_text_ok(p) <==> (sign_len(p) + digit_run(p, sign_len(p)) == p.len()
            && !(p[start] == 48 && (start == 1 || p.len() > 1))),
{
    lemma_digit_run_full(p, start);
    assert(p.subrange(0, p.len() as int) =~= p);
    let d = if start == 1 { p.subrange(1, p.len() as int) } else { p };
    assert(d =~= p.subrange(start, p.len() as int));
    assert(d[0] == p[start]);
}

/// The length text check of the tokenizer, in the terms of the atoi reader.
proof fn lemma_len_text(p: Seq<u8>)
    requires
        p.len() >= 1,
        is_digit(p[0]),
    ensures
        sign_len(p) == 0,
        (digit_run(p, 0) == p.len()) ==> signed_text_value(p) == digits_value(p) as int,
        len_text_ok(p) <==> (digit_run(p, 0) == p.len() && !(p[0] == 48 && p.len() > 1)),
{
    lemma_digit_run_full(p, 0);
    assert(p.subrange(0, p.len() as int) =~= p);
}

/// Scans `b` from `from` for the byte `c`; gives `b.len()` where none comes.
fn find_byte(b: &[u8], from: usize, c: u8) -> (r: usize)
    ensures
        r == find_from(b@, from as int, c),
{
    let mut i = from;
    if i >= b.len() {
        return b.len();
    }
    while i < b.len()
        invariant
            from <= i <= b.len(),
            find_from(b@, from as int, c) == find_from(b@, i as int, c),
        decreases b.len() - i,
    {
        if b[i] == c {
            return i;
        }
        i = i + 1;
    }
    i
}

pub open spec fn read_matches(r: Result<(Token, usize), TokenError>, b: Seq<u8>, pos: int) -> bool {
    match token_at(b, pos) {
        Ok((t, next)) => {
            &&& r is Ok
            &&& r->Ok_0.0.spec_token() == t
            &&& r->Ok_0.0.spec_pos() == pos
            &&& r->Ok_0.1 == next - pos
        },
        Err(e) => r == Err::<(Token, usize), TokenError>(e),
    }
}

fn read_int(b: &[u8], pos: usize) -> (r: Result<(Token, usize), TokenError>)
    requires
        pos < b.len(),
        b@[pos as int] == 105,
    ensures
        read_matches(r, b@, pos as int),
{
    let e = find_byte(b, pos + 1, 101);
    if e >= b.len() {
        return Err(TokenError::UnfinishedInt);
    }
    proof {
        lemma_find_bounds(b@, pos + 1, 101);
    }
    let p = slice_subrange(b, pos + 1, e);
    if p.len() > MAX_NUMBER_TEXT {
        return Err(TokenError::ValueTooLarge);
    }
    let neg = p.len() > 0 && p[0] == 45;
    let start: usize = if neg { 1 } else { 0 };
    if start >= p.len() || !(48 <= p[start] && p[start] <= 57) {
        assert(!int_text_ok(p@)) by {
            if start < p.len() {
                let d = if neg { p@.subrange(1, p@.len() as int) } else { p@ };
                assert(d[0] == p@[start as int]);
            }
        }
        return Err(TokenError::InvalidSyntax);
    }
    proof {
        lemma_int_text(p@, start as int);
    }
    if p[start] == 48 && (neg || p.len() > 1) {
        return Err(TokenError::InvalidSyntax);
    }
    let (val, used) = parse_i64_prefix(p);
    if used != p.len() {
        return Err(TokenError::InvalidSyntax);
    }
    match val {
        None => Err(TokenError::InvalidSyntax),
        Some(v) => Ok((Token::Int(v, pos), e + 1 - pos)),
    }
}

pub proof fn lemma_find_bounds(b: Seq<u8>, from: int, c: u8)
    requires
        0 <= from,
    ensures
        from <= find_from(b, from, c) || find_from(b, from, c) == b.len(),
        find_from(b, from, c) <= b.len(),
        find_from(b, from, c) < b.len() ==> b[find_from(b, from, c)] == c,
        forall|j: int| from <= j < find_from(b, from, c) ==> b[j] != c,
    decreases b.len() - from,
{
    if from < b.len() && b[from] != c {
        lemma_find_bounds(b, from + 1, c);
    }
}

fn read_string(b: &[u8], pos: usize) -> (r: Result<(Token, usize), TokenError>)
    requires
        pos < b.len(),
        is_digit(b@[pos as int]),
    ensures
        read_matches(r, b@, pos as int),
{
    let c = find_byte(b, pos, 58);
    if c >= b.len() {
        return Err(TokenError::MissingColonInString);
    }
    proof {
        lemma_find_bounds(b@, pos as int, 58);
    }
    let p = slice_subrange(b, pos, c);
    if p.len() > MAX_NUMBER_TEXT {
        return Err(TokenError::ValueTooLarge);
    }
    assert(p@[0] == b@[pos as int]);
    proof {
        lemma_len_text(p@);
    }
    if p[0] == 48 && p.len() > 1 {
        return Err(TokenError::InvalidSyntax);
    }
    let (val, used) = parse_i64_prefix(p);
    if used != p.len() {
        return Err(TokenError::InvalidSyntax);
    }
    let v = match val {
        None => {
            return Err(TokenError::InvalidSyntax);
        },
        Some(v) => v,
    };
    let have = b.len() - (c + 1);
    if (have as u64) < (v as u64) {
        return Err(TokenError::UnfinishedString(pos, v as usize, have));
    }
    let n = v as usize;
    let s = slice_to_vec(slice_subrange(b, c + 1, c + 1 + n));
    Ok((Token::String(s, pos), c + 1 + n - pos))
}

/// Reads the token that begins at `pos` of `b`: the token, and how many
/// bytes it takes.
pub fn read_token(b: &[u8], pos: usize) -> (r: Result<(Token, usize), TokenError>)
    ensures
        read_matches(r, b@, pos as int),
{
    if pos >= b.len() {
        return Err(TokenError::EndOfBuffer);
    }
    let c = b[pos];
    if c == 105 {
        read_int(b, pos)
    } else if 48 <= c && c <= 57 {
        read_string(b, pos)
    } else if c == 108 {
        Ok((Token::BeginList(pos), 1))
    } else if c == 100 {
        Ok((Token::BeginDict(pos), 1))
    } else if c == 101 {
        Ok((Token::EndObject(pos), 1))
    } else {
        Err(TokenError::InvalidSyntax)
    }
}

proof fn lemma_find_extend(b: Seq<u8>, x: Seq<u8>, from: int, c: u8)
    requires
        0 <= from,
        find_from(b, from, c) < b.len(),
    ensures
        find_from(b + x, from, c) == find_from(b, from, c),
    decreases b.len() - from,
{
    if from < b.len() && b[from] != c {
        lemma_find_extend(b, x, from + 1, c);
    }
}

/// Once the token at `pos` is complete (or malformed) in `b`, bytes added
/// after `b` do not change it.
pub proof fn lemma_token_extend(b: Seq<u8>, x: Seq<u8>, pos: int)
    requires
        !(token_at(b, pos) is Err && token_at(b, pos)->Err_0.is_unfinished()),
    ensures
        token_at(b + x, pos) == token_at(b, pos),
{
    let bx = b + x;
    if 0 <= pos < b.len() {
        assert(bx[pos] == b[pos]);
        if b[pos] == 105 {
            lemma_find_extend(b, x, pos + 1, 101);
            lemma_find_bounds(b, pos + 1, 101);
            let e = find_from(b, pos + 1, 101);
            assert(bx.subrange(pos + 1, e) =~= b.subrange(pos + 1, e));
        } else if is_digit(b[pos]) {
            lemma_find_extend(b, x, pos, 58);
            lemma_find_bounds(b, pos, 58);
            let c = find_from(b, pos, 58);
            assert(bx.subrange(pos, c) =~= b.subrange(pos, c));
            let n = digits_value(b.subrange(pos, c)) as int;
            if b.len() - (c + 1) >= n {
                assert(bx.subrange(c + 1, c + 1 + n) =~= b.subrange(c + 1, c + 1 + n));
            }
        }
    }
}

/// A complete token takes at least one byte, and no more than the buffer holds.
pub proof fn lemma_token_advance(b: Seq<u8>, pos: int)
    requires
        token_at(b, pos) is Ok,
    ensures
        pos < token_at(b, pos)->Ok_0.1 <= b.len(),
{
    if b[pos] == 105 {
        lemma_find_bounds(b, pos + 1, 101);
    } else if is_digit(b[pos]) {
        lemma_find_bounds(b, pos, 58);
    }
}

/// A cursor over a whole buffer of bencode.
pub struct Tokenizer<'a> {
    src: &'a [u8],
    pos: usize,
}

impl<'a> Tokenizer<'a> {
    pub closed spec fn source(&self) -> Seq<u8> {
        self.src@
    }

    pub closed spec fn cursor(&self) -> int {
        self.pos as int
    }

    pub fn new(src: &'a [u8]) -> (r: Tokenizer<'a>)
        ensures
            r.source() == src@,
            r.cursor() == 0,
    {
        Tokenizer { src, pos: 0 }
    }

    /// Length of the whole buffer.
    pub fn source_len(&self) -> (r: usize)
        ensures
            r == self.source().len(),
    {
        self.src.len()
    }

    /// Offset of the next byte to read.
    pub fn position(&self) -> (r: usize)
        ensures
            r == self.cursor(),
    {
        self.pos
    }

    /// The token at the cursor and how many bytes it takes; the cursor stays.
    pub fn peek_token(&self) -> (r: Result<(Token, usize), TokenError>)
        ensures
            read_matches(r, self.source(), self.cursor()),
    {
        read_token(self.src, self.pos)
    }

    /// The token at the cursor; the cursor moves past it. On an error the
    /// cursor stays.
    pub fn next_token(&mut self) -> (r: Result<Token, TokenError>)
        ensures
            final(self).source() == old(self).source(),
            match token_at(old(self).source(), old(self).cursor()) {
                Ok((t, next)) => {
                    &&& r is Ok
                    &&& r->Ok_0.spec_token() == t
                    &&& r->Ok_0.spec_pos() == old(self).cursor()
                    &&& final(self).cursor() == next
                },
                Err(e) => r == Err::<Token, TokenError>(e) && final(self).cursor() == old(self).cursor(),
            },
            r is Ok ==> old(self).cursor() < final(self).cursor() <= old(self).source().len(),
    {
        let len = self.src.len();
        let r = read_token(self.src, self.pos);
        match r {
            Ok((t, n)) => {
                assert(token_at(self.src@, self.pos as int) is Ok);
                proof {
                    lemma_token_advance(self.src@, self.pos as int);
                }
                assert(self.pos + n <= len);
                self.pos = self.pos + n;
                Ok(t)
            },
            Err(e) => Err(e),
        }
    }
}

} // verus!
