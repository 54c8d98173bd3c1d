use vstd::prelude::*;
use crate::value::{Value, BValue, values_view, pairs_view, lemma_list_view, lemma_dict_view};

verus! {

broadcast use vstd::std_specs::vec::group_vec_axioms, vstd::seq::group_seq_axioms;

/// Byte strings in lexicographic order (a proper prefix comes first).
pub open spec fn lex_lt(a: Seq<u8>, b: Seq<u8>) -> bool
    decreases a.len(),
{
    if a.len() == 0 {
        b.len() > 0
    } else if b.len() == 0 {
        false
    } else if a[0] != b[0] {
        a[0] < b[0]
    } else {
        lex_lt(a.drop_first(), b.drop_first())
    }
}

/// Puts `(k, v)` in a dictionary kept in key order: a pair with the same
/// key is replaced (the last one wins), else the pair goes before the
/// first greater key.
pub open spec fn dict_insert(d: Seq<(Seq<u8>, BValue)>, k: Seq<u8>, v: BValue) -> Seq<(Seq<u8>, BValue)>
    decreases d.len(),
{
    if d.len() == 0 {
        seq![(k, v)]
    } else if lex_lt(k, d.last().0) {
        dict_insert(d.drop_last(), k, v).push(d.last())
    } else if d.last().0 == k {
        d.drop_last().push((k, v))
    } else {
        d.push((k, v))
    }
}

/// A container that is being filled.
pub enum SContainer {
    List(Seq<BValue>),
    /// The pairs so far, and the key that waits for its value.
    Dict(Seq<(Seq<u8>, BValue)>, Option<Seq<u8>>),
}

/// Why the structure of a bencode document is wrong.
#[derive(Debug, Clone, Copy, PartialEq, Eq, Structural)]
pub enum StructureKind {
    /// A value that is not a byte string stands where a dictionary key goes.
    PushToDict,
    /// A dictionary ends after a key and before its value.
    OrphanedKey,
}

pub open spec fn finished(c: SContainer) -> BValue {
    match c {
        SContainer::List(l) => BValue::List(l),
        SContainer::Dict(d, _) => BValue::Dict(d),
    }
}

/// Puts a complete value into a container: a list takes it at its end; a
/// dictionary takes a byte string as its next key, or any value for the key
/// that waits.
pub open spec fn container_push(c: SContainer, v: BValue) -> Result<SContainer, StructureKind> {
    match c {
        SContainer::List(l) => Ok(SContainer::List(l.push(v))),
        SContainer::Dict(d, None) => match v {
            BValue::Bytes(k) => Ok(SContainer::Dict(d, Some(k))),
            _ => Err(StructureKind::PushToDict),
        },
        SContainer::Dict(d, Some(k)) => Ok(SContainer::Dict(dict_insert(d, k, v), None)),
    }
}

/// Puts a complete value on the stack: with no open container it is the
/// root and comes back; else it goes into the innermost container.
pub open spec fn push_value_spec(s: Seq<SContainer>, v: BValue) -> Result<(Seq<SContainer>, Option<BValue>), StructureKind> {
    if s.len() == 0 {
        Ok((s, Some(v)))
    } else {
        match container_push(s.last(), v) {
            Ok(c) => Ok((s.drop_last().push(c), None)),
            Err(e) => Err(e),
        }
    }
}

/// Closes the innermost container and puts it into its parent (or hands
/// it back as the root). With no open container nothing happens.
pub open spec fn pop_spec(s: Seq<SContainer>) -> Result<(Seq<SContainer>, Option<BValue>), StructureKind> {
    if s.len() == 0 {
        Ok((s, None))
    } else {
        match s.last() {
            SContainer::Dict(_, Some(_)) => Err(StructureKind::OrphanedKey),
            c => push_value_spec(s.drop_last(), finished(c)),
        }
    }
}

pub(crate) proof fn lemma_lex_cmp(a: Seq<u8>, b: Seq<u8>)
    ensures
        !(lex_lt(a, b) && lex_lt(b, a)),
        a == b ==> !lex_lt(a, b),
        a != b ==> (lex_lt(a, b) || lex_lt(b, a)),
    decreases a.len(),
{
    if a.len() > 0 && b.len() > 0 && a[0] == b[0] {
        lemma_lex_cmp(a.drop_first(), b.drop_first());
        if a.drop_first() == b.drop_first() {
            assert(a =~= seq![a[0]] + a.drop_first());
            assert(b =~= seq![b[0]] + b.drop_first());
        }
    }
    if a.len() == 0 && b.len() == 0 {
        assert(a =~= b);
    }
}

/// Compares two byte strings: negative, zero or positive as `a` comes
/// before, is equal to, or comes after `b`.
fn compare_bytes(a: &[u8], b: &[u8]) -> (r: i8)
    ensures
        (r < 0) == lex_lt(a@, b@),
        (r == 0) == (a@ == b@),
        (r > 0) == lex_lt(b@, a@),
{
    proof {
        lemma_lex_cmp(a@, b@);
    }
    let mut i: usize = 0;
    assert(a@.subrange(0, a@.len() as int) =~= a@);
    assert(b@.subrange(0, b@.len() as int) =~= b@);
    while i < a.len() && i < b.len()
        invariant
            i <= a.len(),
            i <= b.len(),
            a@.subrange(0, i as int) == b@.subrange(0, i as int),
            lex_lt(a@, b@) == lex_lt(a@.subrange(i as int, a@.len() as int), b@.subrange(i as int, b@.len() as int)),
            lex_lt(b@, a@) == lex_lt(b@.subrange(i as int, b@.len() as int), a@.subrange(i as int, a@.len() as int)),
        decreases a.len() - i,
    {
        let ghost sa = a@.subrange(i as int, a@.len() as int);
        let ghost sb = b@.subrange(i as int, b@.len() as int);
        assert(sa[0] == a@[i as int]);
        assert(sb[0] == b@[i as int]);
        if a[i] != b[i] {
            assert(a@[i as int] != b@[i as int]);
            assert(a@ != b@ ) by {
                assert(a@[i as int] != b@[i as int]);
            }
            if a[i] < b[i] {
                return -1;
            } else {
                return 1;
            }
        }
        assert(sa.drop_first() =~= a@.subrange(i + 1, a@.len() as int));
        assert(sb.drop_first() =~= b@.subrange(i + 1, b@.len() as int));
        assert(a@.subrange(0, i + 1) =~= a@.subrange(0, i as int).push(a@[i as int]));
        assert(b@.subrange(0, i + 1) =~= b@.subrange(0, i as int).push(b@[i as int]));
        i = i + 1;
    }
    let ghost sa = a@.subrange(i as int, a@.len() as int);
    let ghost sb = b@.subrange(i as int, b@.len() as int);
    if a.len() == b.len() {
        assert(a@ =~= a@.subrange(0, i as int));
        assert(b@ =~= b@.subrange(0, i as int));
        0
    } else if a.len() < b.len() {
        assert(sa.len() == 0 && sb.len() > 0);
        assert(a@.len() != b@.len());
        -1
    } else {
        assert(sb.len() == 0 && sa.len() > 0);
        assert(a@.len() != b@.len());
        1
    }
}

/// Puts a pair into a dictionary kept in key order (see `dict_insert`).
pub(crate) fn insert_pair(d: &mut Vec<(Vec<u8>, Value)>, k: Vec<u8>, v: Value)
    ensures
        pairs_view(final(d)@) == dict_insert(pairs_view(old(d)@), k@, v@),
{
    let ghost dv = pairs_view(d@);
    let mut i = d.len();
    assert(dv.subrange(0, dv.len() as int) =~= dv);
    assert(dv =~= dv + dv.subrange(dv.len() as int, dv.len() as int));
    while i > 0
        invariant
            i <= d.len(),
            d@ == old(d)@,
            dv == pairs_view(d@),
            dict_insert(dv, k@, v@) == dict_insert(dv.subrange(0, i as int), k@, v@) + dv.subrange(i as int, dv.len() as int),
        ensures
            i <= d.len(),
            d@ == old(d)@,
            dv == pairs_view(d@),
            dict_insert(dv, k@, v@) == dict_insert(dv.subrange(0, i as int), k@, v@) + dv.subrange(i as int, dv.len() as int),
            i > 0 ==> !lex_lt(k@, dv[i - 1].0),
        decreases i,
    {
        let c = compare_bytes(k.as_slice(), d[i - 1].0.as_slice());
        if c >= 0 {
            break;
        }
        let ghost pre = dv.subrange(0, i as int);
        assert(pre.last() == dv[i - 1]);
        assert(pre.drop_last() =~= dv.subrange(0, i - 1));
        assert(dv.subrange(i - 1, dv.len() as int) =~= seq![dv[i - 1]] + dv.subrange(i as int, dv.len() as int));
        assert(dict_insert(pre, k@, v@) == dict_insert(dv.subrange(0, i - 1), k@, v@).push(dv[i - 1]));
        assert(dict_insert(pre, k@, v@) + dv.subrange(i as int, dv.len() as int) =~= dict_insert(dv.subrange(0, i - 1), k@, v@) + dv.subrange(i - 1, dv.len() as int));
        i = i - 1;
    }
    let ghost pre = dv.subrange(0, i as int);
    let ghost post = dv.subrange(i as int, dv.len() as int);
    if i > 0 && compare_bytes(k.as_slice(), d[i - 1].0.as_slice()) == 0 {
        assert(pre.last().0 == k@);
        assert(dict_insert(pre, k@, v@) == pre.drop_last().push((k@, v@)));
        let _old = d.remove(i - 1);
        d.insert(i - 1, (k, v));
        assert(pairs_view(d@) =~= pre.drop_last().push((k@, v@)) + post);
    } else {
        if i > 0 {
            assert(!lex_lt(k@, pre.last().0));
            assert(dict_insert(pre, k@, v@) == pre.push((k@, v@)));
        } else {
            assert(dict_insert(pre, k@, v@) == seq![(k@, v@)]);
        }
        d.insert(i, (k, v));
        assert(pairs_view(d@) =~= pre.push((k@, v@)) + post);
    }
}

pub open spec fn opt_view(o: Option<Value>) -> Option<BValue> {
    match o {
        Some(v) => Some(v@),
        None => None,
    }
}

/// A failure of the structural stack.
#[derive(Debug, PartialEq)]
pub enum StackError {
    /// The value that stood where a dictionary key goes.
    PushToDict(Value),
    OrphanedKey,
}

impl StackError {
    pub open spec fn spec_kind(&self) -> StructureKind {
        match self {
            StackError::PushToDict(_) => StructureKind::PushToDict,
            StackError::OrphanedKey => StructureKind::OrphanedKey,
        }
    }

    pub fn kind(&self) -> (r: StructureKind)
        ensures
            r == self.spec_kind(),
    {
        match self {
            StackError::PushToDict(_) => StructureKind::PushToDict,
            StackError::OrphanedKey => StructureKind::OrphanedKey,
        }
    }
}

/// What a stack operation returned, against what the model says of it.
pub open spec fn stack_result(
    r: Result<Option<Value>, StackError>,
    expected: Result<(Seq<SContainer>, Option<BValue>), StructureKind>,
    after: Seq<SContainer>,
) -> bool {
    match expected {
        Ok((s2, out)) => r is Ok && after == s2 && opt_view(r->Ok_0) == out,
        Err(k) => r is Err && r->Err_0.spec_kind() == k,
    }
}

struct ListBuilder {
    list: Vec<Value>,
}

impl ListBuilder {
    spec fn view(&self) -> Seq<BValue> {
        values_view(self.list@)
    }

    fn new() -> (r: ListBuilder)
        ensures
            r.view() == Seq::<BValue>::empty(),
    {
        let r = ListBuilder { list: Vec::new() };
        assert(r.view() =~= Seq::<BValue>::empty());
        r
    }

    fn insert(&mut self, v: Value)
        ensures
            final(self).view() == old(self).view().push(v@),
    {
        self.list.push(v);
        assert(self.view() =~= old(self).view().push(v@));
    }

    fn finish(self) -> (r: Vec<Value>)
        ensures
            values_view(r@) == self.view(),
    {
        self.list
    }
}

struct DictBuilder {
    dict: Vec<(Vec<u8>, Value)>,
    pending_key: Option<Vec<u8>>,
}

impl DictBuilder {
    spec fn pending(&self) -> Option<Seq<u8>> {
        match self.pending_key {
            Some(k) => Some(k@),
            None => None,
        }
    }

    spec fn view(&self) -> SContainer {
        SContainer::Dict(pairs_view(self.dict@), self.pending())
    }

    fn new() -> (r: DictBuilder)
        ensures
            r.view() == SContainer::Dict(Seq::empty(), None),
    {
        let r = DictBuilder { dict: Vec::new(), pending_key: None };
        assert(pairs_view(r.dict@) =~= Seq::empty());
        r
    }

    /// Takes a key when none waits, else the value of the waiting key. A
    /// key that is not a byte string comes back as the error.
    fn insert(&mut self, v: Value) -> (r: Result<(), Value>)
        ensures
            match container_push(old(self).view(), v@) {
                Ok(c) => r is Ok && final(self).view() == c,
                Err(_) => r == Err::<(), Value>(v),
            },
    {
        match self.pending_key.take() {
            None => match v {
                Value::String(k) => {
                    self.pending_key = Some(k);
                    Ok(())
                },
                other => Err(other),
            },
            Some(k) => {
                insert_pair(&mut self.dict, k, v);
                Ok(())
            },
        }
    }

    /// The pairs, in key order; `None` while a key waits for its value.
    fn finish(self) -> (r: Option<Vec<(Vec<u8>, Value)>>)
        ensures
            match self.view() {
                SContainer::Dict(d, None) => r is Some && pairs_view(r->Some_0@) == d,
                _ => r is None,
            },
    {
        if self.pending_key.is_some() {
            None
        } else {
            Some(self.dict)
        }
    }
}

enum Container {
    List(ListBuilder),
    Dict(DictBuilder),
}

impl Container {
    spec fn view(&self) -> SContainer {
        match self {
            Container::List(l) => SContainer::List(l.view()),
            Container::Dict(d) => d.view(),
        }
    }

    fn new_list() -> (r: Container)
        ensures
            r.view() == SContainer::List(Seq::empty()),
    {
        Container::List(ListBuilder::new())
    }

    fn new_dict() -> (r: Container)
        ensures
            r.view() == SContainer::Dict(Seq::empty(), None),
    {
        Container::Dict(DictBuilder::new())
    }

    fn insert(&mut self, v: Value) -> (r: Result<(), Value>)
        ensures
            match container_push(old(self).view(), v@) {
                Ok(c) => r is Ok && final(self).view() == c,
                Err(_) => r == Err::<(), Value>(v),
            },
    {
        match self {
            Container::List(l) => {
                l.insert(v);
                Ok(())
            },
            Container::Dict(d) => d.insert(v),
        }
    }

    /// The finished value; `None` for a dictionary whose last key has no value.
    fn to_value(self) -> (r: Option<Value>)
        ensures
            match self.view() {
                SContainer::Dict(_, Some(_)) => r is None,
                c => r is Some && r->Some_0@ == finished(c),
            },
    {
        match self {
            Container::List(l) => {
                let items = l.finish();
                proof {
                    lemma_list_view(items);
                }
                Some(Value::List(items))
            },
            Container::Dict(d) => match d.finish() {
                Some(pairs) => {
                    proof {
                        lemma_dict_view(pairs);
                    }
                    Some(Value::Dictionary(pairs))
                },
                None => None,
            },
        }
    }
}

/// The containers that are open while a document is read, innermost last.
pub struct Stack {
    stack: Vec<Container>,
}

impl View for Stack {
    type V = Seq<SContainer>;

    closed spec fn view(&self) -> Seq<SContainer> {
        Seq::new(self.stack.len() as nat, |i: int| self.stack[i].view())
    }
}

impl Stack {
    pub fn new() -> (r: Stack)
        ensures
            r@ == Seq::<SContainer>::empty(),
    {
        let r = Stack { stack: Vec::new() };
        assert(r@ =~= Seq::<SContainer>::empty());
        r
    }

    /// Number of open containers.
    pub fn depth(&self) -> (r: usize)
        ensures
            r == self@.len(),
    {
        self.stack.len()
    }

    /// Puts a complete value on the stack (see `push_value_spec`): the
    /// root comes back as `Some`.
    pub fn push_value(&mut self, v: Value) -> (r: Result<Option<Value>, StackError>)
        ensures
            stack_result(r, push_value_spec(old(self)@, v@), final(self)@),
            r matches Err(StackError::PushToDict(w)) ==> w@ == v@,
    {
        if self.stack.len() == 0 {
            return Ok(Some(v));
        }
        let ghost s = self@;
        let mut top = self.stack.pop().unwrap();
        assert(self@ =~= s.drop_last());
        match top.insert(v) {
            Ok(()) => {
                self.stack.push(top);
                assert(self@ =~= s.drop_last().push(top.view()));
                Ok(None)
            },
            Err(w) => {
                self.stack.push(top);
                Err(StackError::PushToDict(w))
            },
        }
    }

    pub fn push_list(&mut self)
        ensures
            final(self)@ == old(self)@.push(SContainer::List(Seq::empty())),
    {
        let c = Container::new_list();
        self.stack.push(c);
        assert(self@ =~= old(self)@.push(SContainer::List(Seq::empty())));
    }

    pub fn push_dict(&mut self)
        ensures
            final(self)@ == old(self)@.push(SContainer::Dict(Seq::empty(), None)),
    {
        let c = Container::new_dict();
        self.stack.push(c);
        assert(self@ =~= old(self)@.push(SContainer::Dict(Seq::empty(), None)));
    }

    /// Closes the innermost container (see `pop_spec`): the root comes
    /// back as `Some`.
    pub fn pop_container(&mut self) -> (r: Result<Option<Value>, StackError>)
        ensures
            stack_result(r, pop_spec(old(self)@), final(self)@),
    {
        if self.stack.len() == 0 {
            return Ok(None);
        }
        let ghost s = self@;
        let top = self.stack.pop().unwrap();
        assert(self@ =~= s.drop_last());
        match top.to_value() {
            Some(v) => self.push_value(v),
            None => Err(StackError::OrphanedKey),
        }
    }
}

} // verus!
