use vstd::prelude::*;
use vstd::string::StringSliceAdditionalSpecFns;
use crate::stack::{dict_insert, insert_pair};

verus! {

broadcast use vstd::std_specs::vec::group_vec_axioms, vstd::seq::group_seq_axioms;

/// A decoded bencode value.
#[derive(Debug, PartialEq)]
pub enum Value {
    Int(i64),
    String(Vec<u8>),
    List(Vec<Value>),
    Dictionary(Vec<(Vec<u8>, Value)>),
}

/// The mathematical model of a bencode value.
pub enum BValue {
    Int(int),
    Bytes(Seq<u8>),
    List(Seq<BValue>),
    Dict(Seq<(Seq<u8>, BValue)>),
}

pub open spec fn value_view(v: Value) -> BValue
    decreases v,
{
    match v {
        Value::Int(i) => BValue::Int(i as int),
        Value::String(s) => BValue::Bytes(s@),
        Value::List(l) => BValue::List(
            Seq::new(
                l.len() as nat,
                |i: int|
                    if 0 <= i < l.len() {
                        value_view(l[i])
                    } else {
                        BValue::Int(0)
                    },
            ),
        ),
        Value::Dictionary(d) => BValue::Dict(
            Seq::new(
                d.len() as nat,
                |i: int|
                    if 0 <= i < d.len() {
                        (d[i].0@, value_view(d[i].1))
                    } else {
                        (Seq::empty(), BValue::Int(0))
                    },
            ),
        ),
    }
}

impl View for Value {
    type V = BValue;

    open spec fn view(&self) -> BValue {
        value_view(*self)
    }
}

pub open spec fn values_view(l: Seq<Value>) -> Seq<BValue> {
    Seq::new(l.len(), |i: int| l[i]@)
}

pub open spec fn pairs_view(d: Seq<(Vec<u8>, Value)>) -> Seq<(Seq<u8>, BValue)> {
    Seq::new(d.len(), |i: int| (d[i].0@, d[i].1@))
}

pub proof fn lemma_list_view(l: Vec<Value>)
    ensures
        Value::List(l)@ == BValue::List(values_view(l@)),
{
    assert(values_view(l@) =~= match value_view(Value::List(l)) {
        BValue::List(s) => s,
        _ => Seq::empty(),
    });
}

pub proof fn lemma_dict_view(d: Vec<(Vec<u8>, Value)>)
    ensures
        Value::Dictionary(d)@ == BValue::Dict(pairs_view(d@)),
{
    assert(pairs_view(d@) =~= match value_view(Value::Dictionary(d)) {
        BValue::Dict(s) => s,
        _ => Seq::empty(),
    });
}

/// A dictionary built by putting the pairs in one after the other: kept in
/// key order, the last value of a repeated key wins.
pub open spec fn dict_from(ps: Seq<(Seq<u8>, BValue)>) -> Seq<(Seq<u8>, BValue)>
    decreases ps.len(),
{
    if ps.len() == 0 {
        Seq::empty()
    } else {
        dict_insert(dict_from(ps.drop_last()), ps.last().0, ps.last().1)
    }
}

impl Value {
    pub fn integer(i: i64) -> (r: Value)
        ensures
            r@ == BValue::Int(i as int),
    {
        Value::Int(i)
    }

    pub fn string(v: Vec<u8>) -> (r: Value)
        ensures
            r@ == BValue::Bytes(v@),
    {
        Value::String(v)
    }

    pub fn string_ref(v: &[u8]) -> (r: Value)
        ensures
            r@ == BValue::Bytes(v@),
    {
        Value::String(vstd::slice::slice_to_vec(v))
    }

    /// The bytes of a text, as a byte string.
    pub fn text(s: &str) -> (r: Value)
        ensures
            r@ == BValue::Bytes(s.spec_bytes()),
    {
        Value::String(vstd::slice::slice_to_vec(s.as_bytes()))
    }

    pub fn list(v: Vec<Value>) -> (r: Value)
        ensures
            r@ == BValue::List(values_view(v@)),
    {
        proof {
            lemma_list_view(v);
        }
        Value::List(v)
    }

    /// A dictionary of the pairs, in key order; where a key repeats, its
    /// last value wins.
    pub fn dictionary(v: Vec<(Vec<u8>, Value)>) -> (r: Value)
        ensures
            r@ == BValue::Dict(dict_from(pairs_view(v@))),
    {
        let ghost src = pairs_view(v@);
        let mut d: Vec<(Vec<u8>, Value)> = Vec::new();
        let mut rest = v;
        assert(pairs_view(d@) =~= Seq::<(Seq<u8>, BValue)>::empty());
        assert(src.subrange(0, 0) =~= Seq::<(Seq<u8>, BValue)>::empty());
        assert(pairs_view(rest@) =~= src.subrange(0, src.len() as int));
        while rest.len() > 0
            invariant
                rest@.len() <= src.len(),
                pairs_view(d@) == dict_from(src.subrange(0, src.len() - rest@.len())),
                pairs_view(rest@) == src.subrange(src.len() - rest@.len(), src.len() as int),
            decreases rest.len(),
        {
            let ghost k = src.len() - rest@.len();
            let ghost rv = pairs_view(rest@);
            let ghost ro = rest@;
            let (key, val) = rest.remove(0);
            assert(rest@ =~= ro.subrange(1, ro.len() as int));
            assert forall|i: int| 0 <= i < rest@.len() implies #[trigger] pairs_view(rest@)[i] == rv[i + 1] by {
                assert(rest@[i] == ro[i + 1]);
            }
            assert(rv[0] == src[k]);
            assert(src[k] == (key@, val@));
            let ghost pre = src.subrange(0, k + 1);
            assert(pre.drop_last() =~= src.subrange(0, k));
            assert(pairs_view(rest@) =~= src.subrange(k + 1, src.len() as int));
            insert_pair(&mut d, key, val);
        }
        assert(src.subrange(0, src.len() as int) =~= src);
        proof {
            lemma_dict_view(d);
        }
        Value::Dictionary(d)
    }

    /// A short name of the value's type: `int`, `string`, `list` or `dictionary`.
    pub fn kind_name(&self) -> (r: &'static str)
        ensures
            r@ == kind_name_of(self@),
    {
        match self {
            Value::Int(_) => "int",
            Value::String(_) => "string",
            Value::List(_) => "list",
            Value::Dictionary(_) => "dictionary",
        }
    }
}

pub open spec fn kind_name_of(v: BValue) -> Seq<char> {
    match v {
        BValue::Int(_) => "int"@,
        BValue::Bytes(_) => "string"@,
        BValue::List(_) => "list"@,
        BValue::Dict(_) => "dictionary"@,
    }
}

} // verus!
