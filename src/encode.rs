use vstd::prelude::*;
use crate::value::BValue;
use crate::text::{nat_text, int_text};
use crate::token::{SToken, token_at, find_from, digits_value, all_digits, is_digit, int_text_ok, int_text_value, len_text_ok, fits_i64};
use crate::stack::{SContainer, push_value_spec, pop_spec, dict_insert, lex_lt, lemma_lex_cmp};
use crate::decoder::{Parse, parse_from, decode_spec, step, DecodeError};

verus! {

broadcast use vstd::seq::group_seq_axioms;

/// The bencode text of a value: `i<n>e`, `<len>:<bytes>`, `l...e`, `d...e`.
pub open spec fn encode(v: BValue) -> Seq<u8>
    decreases v,
{
    match v {
        BValue::Int(i) => seq![105u8] + int_text(i) + seq![101u8],
        BValue::Bytes(s) => nat_text(s.len()) + seq![58u8] + s,
        BValue::List(l) => seq![108u8] + encode_list(l) + seq![101u8],
        BValue::Dict(d) => seq![100u8] + encode_dict(d) + seq![101u8],
    }
}

pub open spec fn encode_list(l: Seq<BValue>) -> Seq<u8>
    decreases l,
{
    if l.len() == 0 {
        Seq::empty()
    } else {
        encode(l[0]) + encode_list(l.subrange(1, l.len() as int))
    }
}

pub open spec fn encode_dict(d: Seq<(Seq<u8>, BValue)>) -> Seq<u8>
    decreases d,
{
    if d.len() == 0 {
        Seq::empty()
    } else {
        nat_text(d[0].0.len()) + seq![58u8] + d[0].0 + encode(d[0].1) + encode_dict(d.subrange(1, d.len() as int))
    }
}

/// A value that bencode can carry as it is: integers of 64 bits, byte
/// strings whose length fits one, and dictionaries with keys in strictly
/// increasing order.
pub open spec fn wf_value(v: BValue) -> bool
    decreases v,
{
    match v {
        BValue::Int(i) => fits_i64(i),
        BValue::Bytes(s) => s.len() <= i64::MAX,
        BValue::List(l) => wf_list(l),
        BValue::Dict(d) => wf_dict(d),
    }
}

pub open spec fn wf_list(l: Seq<BValue>) -> bool
    decreases l,
{
    l.len() == 0 || (wf_value(l[0]) && wf_list(l.subrange(1, l.len() as int)))
}

pub open spec fn wf_dict(d: Seq<(Seq<u8>, BValue)>) -> bool
    decreases d,
{
    d.len() == 0 || {
        &&& d[0].0.len() <= i64::MAX
        &&& wf_value(d[0].1)
        &&& d.len() > 1 ==> lex_lt(d[0].0, d[1].0)
        &&& wf_dict(d.subrange(1, d.len() as int))
    }
}

pub open spec fn pow10(k: nat) -> nat
    decreases k,
{
    if k == 0 {
        1
    } else {
        10 * pow10((k - 1) as nat)
    }
}

proof fn lemma_nat_text(n: nat)
    ensures
        nat_text(n).len() >= 1,
        all_digits(nat_text(n)),
        digits_value(nat_text(n)) == n,
        nat_text(n)[0] == 48 ==> n == 0 && nat_text(n).len() == 1,
    decreases n,
{
    if n < 10 {
        assert(nat_text(n) == seq![(48 + n) as u8]);
        assert(nat_text(n).drop_last() =~= Seq::<u8>::empty());
        assert(digits_value(Seq::<u8>::empty()) == 0);
        assert(digits_value(nat_text(n)) == digits_value(nat_text(n).drop_last()) * 10 + (nat_text(n).last() - 48) as nat);
    }
    if n >= 10 {
        lemma_nat_text(n / 10);
        let t = nat_text(n / 10);
        assert(nat_text(n) == t.push((48 + n % 10) as u8));
        assert(nat_text(n).drop_last() =~= t);
        assert(nat_text(n).last() == (48 + n % 10) as u8);
        assert(digits_value(nat_text(n)) == digits_value(t) * 10 + (n % 10));
        assert((n / 10) * 10 + n % 10 == n);
        assert(nat_text(n)[0] == t[0]);
        assert forall|i: int| 0 <= i < nat_text(n).len() implies is_digit(#[trigger] nat_text(n)[i]) by {
            if i < t.len() {
                assert(nat_text(n)[i] == t[i]);
            }
        }
    }
}

proof fn lemma_nat_text_len(n: nat, k: nat)
    requires
        k >= 1,
        n < pow10(k),
    ensures
        nat_text(n).len() <= k,
    decreases k,
{
    if n >= 10 {
        assert(k >= 2) by {
            if k == 1 {
                assert(pow10(1) == 10 * pow10(0));
            }
        }
        assert(pow10(k) == 10 * pow10((k - 1) as nat));
        assert(n / 10 < pow10((k - 1) as nat)) by (nonlinear_arith)
            requires n < 10 * pow10((k - 1) as nat);
        lemma_nat_text_len(n / 10, (k - 1) as nat);
    }
}

proof fn lemma_short_text(n: nat)
    requires
        n <= 9223372036854775808,
    ensures
        nat_text(n).len() <= 19,
{
    reveal_with_fuel(pow10, 20);
    assert(pow10(19) == 10000000000000000000);
    lemma_nat_text_len(n, 19);
}

proof fn lemma_find_skip(b: Seq<u8>, from: int, n: int, c: u8)
    requires
        0 <= from,
        0 <= n,
        from + n < b.len(),
        b[from + n] == c,
        forall|j: int| from <= j < from + n ==> b[j] != c,
    ensures
        find_from(b, from, c) == from + n,
    decreases n,
{
    if n > 0 {
        lemma_find_skip(b, from + 1, n - 1, c);
    }
}

/// An encoded integer reads back as one token.
#[verifier::rlimit(60)]
proof fn lemma_int_token(pre: Seq<u8>, i: int, rest: Seq<u8>)
    requires
        fits_i64(i),
    ensures
        token_at(pre + encode(BValue::Int(i)) + rest, pre.len() as int)
            == Ok::<(SToken, int), crate::token::TokenError>((SToken::Int(i), (pre.len() + encode(BValue::Int(i)).len()) as int)),
{
    let t = int_text(i);
    let b = pre + encode(BValue::Int(i)) + rest;
    let p = pre.len() as int;
    let m = if i < 0 { -i } else { i };
    lemma_nat_text(m as nat);
    lemma_short_text(m as nat);
    assert(b =~= pre + seq![105u8] + t + seq![101u8] + rest);
    assert(b[p] == 105);
    assert forall|j: int| p + 1 <= j < p + 1 + t.len() implies b[j] != 101 by {
        assert(b[j] == t[j - p - 1]);
        if i < 0 && j == p + 1 {
        } else {
            let k = if i < 0 { j - p - 2 } else { j - p - 1 };
            assert(t[j - p - 1] == nat_text(m as nat)[k]);
            assert(is_digit(nat_text(m as nat)[k]));
        }
    }
    assert(b[p + 1 + t.len()] == 101);
    lemma_find_skip(b, p + 1, t.len() as int, 101);
    assert(b.subrange(p + 1, p + 1 + t.len()) =~= t);
    if i < 0 {
        assert(t.subrange(1, t.len() as int) =~= nat_text(m as nat));
    } else {
        assert(t[0] != 45) by {
            assert(is_digit(nat_text(m as nat)[0]));
        }
    }
    assert(int_text_ok(t));
    assert(int_text_value(t) == i);
}

/// An encoded byte string reads back as one token.
proof fn lemma_bytes_token(pre: Seq<u8>, s: Seq<u8>, rest: Seq<u8>)
    requires
        s.len() <= i64::MAX,
    ensures
        token_at(pre + encode(BValue::Bytes(s)) + rest, pre.len() as int)
            == Ok::<(SToken, int), crate::token::TokenError>((SToken::Bytes(s), (pre.len() + encode(BValue::Bytes(s)).len()) as int)),
{
    let t = nat_text(s.len());
    let b = pre + encode(BValue::Bytes(s)) + rest;
    let p = pre.len() as int;
    lemma_nat_text(s.len());
    lemma_short_text(s.len());
    assert(b =~= pre + t + seq![58u8] + s + rest);
    assert(b[p] == t[0]);
    assert forall|j: int| p <= j < p + t.len() implies b[j] != 58 by {
        assert(b[j] == t[j - p]);
        assert(is_digit(t[j - p]));
    }
    assert(b[p + t.len()] == 58);
    lemma_find_skip(b, p, t.len() as int, 58);
    assert(b.subrange(p, p + t.len()) =~= t);
    let c = p + t.len();
    assert(b.subrange(c + 1, c + 1 + s.len()) =~= s);
    assert(len_text_ok(t));
}

pub open spec fn lift_push(r: Result<(Seq<SContainer>, Option<BValue>), crate::stack::StructureKind>, b: Seq<u8>, q: int) -> Parse {
    match r {
        Err(k) => Parse::Failed(DecodeError::InvalidStructure(k)),
        Ok((_, Some(w))) => Parse::Complete(w, q),
        Ok((s2, None)) => parse_from(b, q, s2),
    }
}

/// Reading an encoded value puts that value on the stack.
proof fn lemma_parse_value(v: BValue, pre: Seq<u8>, rest: Seq<u8>, s: Seq<SContainer>)
    requires
        wf_value(v),
    ensures
        parse_from(pre + encode(v) + rest, pre.len() as int, s)
            == lift_push(push_value_spec(s, v), pre + encode(v) + rest, (pre.len() + encode(v).len()) as int),
    decreases v,
{
    let b = pre + encode(v) + rest;
    let p = pre.len() as int;
    let q = p + encode(v).len();
    match v {
        BValue::Int(i) => {
            lemma_int_token(pre, i, rest);
        },
        BValue::Bytes(x) => {
            lemma_bytes_token(pre, x, rest);
        },
        BValue::List(l) => {
            assert(b =~= pre + seq![108u8] + encode_list(l) + (seq![101u8] + rest));
            assert(b[p] == 108);
            let s1 = s.push(SContainer::List(Seq::empty()));
            assert(parse_from(b, p, s) == parse_from(b, p + 1, s1));
            lemma_parse_list(l, pre + seq![108u8], seq![101u8] + rest, s, Seq::empty());
            let e = p + 1 + encode_list(l).len();
            assert(Seq::<BValue>::empty() + l =~= l);
            let s2 = s.push(SContainer::List(l));
            assert(b[e] == 101);
            assert(s2.drop_last() =~= s);
            assert(pop_spec(s2) == push_value_spec(s, BValue::List(l)));
            assert(q == e + 1);
            assert(parse_from(b, e, s2) == lift_push(push_value_spec(s, v), b, q));
        },
        BValue::Dict(d) => {
            assert(b =~= pre + seq![100u8] + encode_dict(d) + (seq![101u8] + rest));
            assert(b[p] == 100);
            let s1 = s.push(SContainer::Dict(Seq::empty(), None));
            assert(parse_from(b, p, s) == parse_from(b, p + 1, s1));
            lemma_parse_dict(d, pre + seq![100u8], seq![101u8] + rest, s, Seq::empty());
            let e = p + 1 + encode_dict(d).len();
            assert(Seq::<(Seq<u8>, BValue)>::empty() + d =~= d);
            let s2 = s.push(SContainer::Dict(d, None));
            assert(b[e] == 101);
            assert(s2.drop_last() =~= s);
            assert(pop_spec(s2) == push_value_spec(s, BValue::Dict(d)));
            assert(q == e + 1);
            assert(parse_from(b, e, s2) == lift_push(push_value_spec(s, v), b, q));
        },
    }
}

proof fn lemma_parse_list(l: Seq<BValue>, pre: Seq<u8>, rest: Seq<u8>, s: Seq<SContainer>, acc: Seq<BValue>)
    requires
        wf_list(l),
    ensures
        parse_from(pre + encode_list(l) + rest, pre.len() as int, s.push(SContainer::List(acc)))
            == parse_from(pre + encode_list(l) + rest, (pre.len() + encode_list(l).len()) as int, s.push(SContainer::List(acc + l))),
    decreases l,
{
    if l.len() == 0 {
        assert(acc + l =~= acc);
    } else {
        let tail = l.subrange(1, l.len() as int);
        let b = pre + encode_list(l) + rest;
        let r1 = encode_list(tail) + rest;
        assert(b =~= pre + encode(l[0]) + r1);
        let st = s.push(SContainer::List(acc));
        lemma_parse_value(l[0], pre, r1, st);
        assert(st.drop_last() =~= s);
        let st2 = s.push(SContainer::List(acc.push(l[0])));
        assert(push_value_spec(st, l[0]) == Ok::<(Seq<SContainer>, Option<BValue>), crate::stack::StructureKind>((st2, None)));
        let pre2 = pre + encode(l[0]);
        assert(b =~= pre2 + encode_list(tail) + rest);
        lemma_parse_list(tail, pre2, rest, s, acc.push(l[0]));
        assert(acc.push(l[0]) + tail =~= acc + l);
    }
}

proof fn lemma_parse_dict(d: Seq<(Seq<u8>, BValue)>, pre: Seq<u8>, rest: Seq<u8>, s: Seq<SContainer>, acc: Seq<(Seq<u8>, BValue)>)
    requires
        wf_dict(d),
        acc.len() > 0 && d.len() > 0 ==> lex_lt(acc.last().0, d[0].0),
    ensures
        parse_from(pre + encode_dict(d) + rest, pre.len() as int, s.push(SContainer::Dict(acc, None)))
            == parse_from(pre + encode_dict(d) + rest, (pre.len() + encode_dict(d).len()) as int, s.push(SContainer::Dict(acc + d, None))),
    decreases d,
{
    if d.len() == 0 {
        assert(acc + d =~= acc);
    } else {
        let (k, v) = d[0];
        let tail = d.subrange(1, d.len() as int);
        let b = pre + encode_dict(d) + rest;
        let p = pre.len() as int;
        let r1 = encode(v) + encode_dict(tail) + rest;
        assert(encode(BValue::Bytes(k)) == nat_text(k.len()) + seq![58u8] + k);
        assert(b =~= pre + encode(BValue::Bytes(k)) + r1);
        lemma_bytes_token(pre, k, r1);
        crate::token::lemma_token_advance(pre + encode(BValue::Bytes(k)) + r1, p);
        let st = s.push(SContainer::Dict(acc, None));
        let stk = s.push(SContainer::Dict(acc, Some(k)));
        assert(st.drop_last() =~= s);
        assert(step(st, SToken::Bytes(k)) == Ok::<(Seq<SContainer>, Option<BValue>), DecodeError>((stk, None)));
        let pk = p + encode(BValue::Bytes(k)).len();
        assert(parse_from(b, p, st) == parse_from(b, pk, stk));
        let pre2 = pre + encode(BValue::Bytes(k));
        let r2 = encode_dict(tail) + rest;
        assert(b =~= pre2 + encode(v) + r2);
        lemma_parse_value(v, pre2, r2, stk);
        assert(stk.drop_last() =~= s);
        if acc.len() > 0 {
            lemma_lex_cmp(acc.last().0, k);
            assert(acc.drop_last().push(acc.last()) =~= acc);
        }
        assert(dict_insert(acc, k, v) == acc.push((k, v)));
        let st3 = s.push(SContainer::Dict(acc.push((k, v)), None));
        assert(push_value_spec(stk, v) == Ok::<(Seq<SContainer>, Option<BValue>), crate::stack::StructureKind>((st3, None)));
        let pre3 = pre2 + encode(v);
        assert(b =~= pre3 + encode_dict(tail) + rest);
        if tail.len() > 0 {
            assert(tail[0] == d[1]);
        }
        lemma_parse_dict(tail, pre3, rest, s, acc.push((k, v)));
        assert(acc.push((k, v)) + tail =~= acc + d);
    }
}

/// Decoding the encoding of a value gives the value back: every valid
/// bencode text of a value decodes to that value.
pub proof fn law_decode_of_encoding(v: BValue)
    requires
        wf_value(v),
    ensures
        decode_spec(encode(v)) == Ok::<BValue, DecodeError>(v),
{
    let e = encode(v);
    assert(Seq::<u8>::empty() + e + Seq::<u8>::empty() =~= e);
    lemma_parse_value(v, Seq::empty(), Seq::empty(), Seq::empty());
}

/// A buffer that holds a value and more bytes after it is refused with
/// `TrailingDataInBuffer`.
pub proof fn law_two_objects_are_trailing_data(v: BValue, rest: Seq<u8>)
    requires
        wf_value(v),
        rest.len() > 0,
    ensures
        decode_spec(encode(v) + rest) == Err::<BValue, DecodeError>(DecodeError::TrailingDataInBuffer),
{
    let e = encode(v);
    assert(Seq::<u8>::empty() + e + rest =~= e + rest);
    lemma_parse_value(v, Seq::empty(), rest, Seq::empty());
}

} // verus!
