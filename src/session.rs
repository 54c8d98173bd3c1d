use vstd::prelude::*;
use crate::digest::{sha1_of, make_sha1};
use crate::text::{int_text, push_decimal};
use crate::torrent::Torrent;

verus! {

broadcast use vstd::std_specs::vec::group_vec_axioms, vstd::seq::group_seq_axioms;

/// Length of the start of a peer handshake that selects a torrent.
pub const HANDSHAKE_LEN: usize = 68;

/// Room of the session's event channel.
pub const EVENT_CAPACITY: usize = 1024;

/// Room of a worker's command channel.
pub const COMMAND_CAPACITY: usize = 32;

/// Room of a worker's channel of peer streams.
pub const PEER_STREAM_CAPACITY: usize = 1024;

#[derive(Debug, Clone, Copy, PartialEq, Eq, Structural)]
pub enum SessionError {
    /// A worker for this infohash is registered already.
    TrackerDuplicate,
}

#[derive(Debug, Clone, Copy, PartialEq, Eq, Structural)]
pub enum TrackerError {
    /// The torrent has no infohash.
    InvalidTorrent,
}

pub open spec fn protocol_name() -> Seq<u8> {
    seq![66u8, 105, 116, 84, 111, 114, 114, 101, 110, 116, 32, 112, 114, 111, 116, 111, 99, 111, 108]
}

/// The infohash that the start of an inbound handshake names: a length
/// byte of 19, the protocol name, eight reserved bytes (not looked at),
/// then the 20 bytes of the infohash.
pub open spec fn handshake_spec(b: Seq<u8>) -> Option<Seq<u8>> {
    if b.len() >= HANDSHAKE_LEN && b[0] == 19 && b.subrange(1, 20) == protocol_name() {
        Some(b.subrange(28, 48))
    } else {
        None
    }
}

/// Reads the infohash from the start of an inbound handshake.
pub fn parse_handshake(b: &[u8]) -> (r: Option<[u8; 20]>)
    ensures
        match handshake_spec(b@) {
            Some(h) => r is Some && r->Some_0@ == h,
            None => r is None,
        },
{
    if b.len() < HANDSHAKE_LEN || b[0] != 19 {
        return None;
    }
    let name: [u8; 19] = [66u8, 105, 116, 84, 111, 114, 114, 101, 110, 116, 32, 112, 114, 111, 116, 111, 99, 111, 108];
    let got = vstd::slice::slice_subrange(b, 1, 20);
    if !crate::digest::is_equal_sha1_slice(got, &name) {
        assert(name@ == protocol_name());
        return None;
    }
    assert(name@ == protocol_name());
    let mut h = [0u8; 20];
    let mut i: usize = 0;
    while i < 20
        invariant
            i <= 20,
            b@.len() >= HANDSHAKE_LEN,
            h@.len() == 20,
            forall|j: int| 0 <= j < i ==> h@[j] == b@[28 + j],
        decreases 20 - i,
    {
        h[i] = b[28 + i];
        i = i + 1;
    }
    assert(h@ =~= b@.subrange(28, 48));
    Some(h)
}

/// Which worker takes the peers of which torrent: at most one entry for
/// each infohash.
pub struct Routes<S> {
    entries: Vec<([u8; 20], S)>,
}

impl<S> Routes<S> {
    /// The routes, in the order they were registered.
    pub closed spec fn routes(&self) -> Seq<(Seq<u8>, S)> {
        Seq::new(self.entries@.len(), |i: int| (self.entries@[i].0@, self.entries@[i].1))
    }

    /// The infohashes, in the order they were registered.
    pub closed spec fn keys(&self) -> Seq<Seq<u8>> {
        Seq::new(self.entries@.len(), |i: int| self.entries@[i].0@)
    }

    /// No infohash has two entries.
    pub open spec fn wf(&self) -> bool {
        self.keys().no_duplicates()
    }

    pub fn new() -> (r: Routes<S>)
        ensures
            r.wf(),
            r.keys() == Seq::<Seq<u8>>::empty(),
    {
        let r = Routes { entries: Vec::new() };
        assert(r.keys() =~= Seq::<Seq<u8>>::empty());
        r
    }

    fn find(&self, key: &[u8; 20]) -> (r: Option<usize>)
        ensures
            match r {
                Some(i) => i < self.keys().len() && self.keys()[i as int] == key@,
                None => !self.keys().contains(key@),
            },
    {
        let mut i: usize = 0;
        while i < self.entries.len()
            invariant
                i <= self.entries@.len(),
                forall|j: int| 0 <= j < i ==> self.keys()[j] != key@,
            decreases self.entries.len() - i,
        {
            if crate::digest::is_equal_sha1(&self.entries[i].0, key) {
                return Some(i);
            }
            i = i + 1;
        }
        None
    }

    pub fn contains(&self, key: &[u8; 20]) -> (r: bool)
        ensures
            r == self.keys().contains(key@),
    {
        self.find(key).is_some()
    }

    /// Adds a route; an infohash that has one already is refused, and the
    /// route it has stays.
    pub fn register(&mut self, key: [u8; 20], sink: S) -> (r: Result<(), SessionError>)
        requires
            old(self).wf(),
        ensures
            final(self).wf(),
            old(self).keys().contains(key@) ==> r == Err::<(), SessionError>(SessionError::TrackerDuplicate)
                && final(self).keys() == old(self).keys(),
            old(self).keys().contains(key@) ==> final(self).routes() == old(self).routes(),
            !old(self).keys().contains(key@) ==> r is Ok && final(self).keys() == old(self).keys().push(key@)
                && final(self).routes() == old(self).routes().push((key@, sink)),
    {
        if self.find(&key).is_some() {
            return Err(SessionError::TrackerDuplicate);
        }
        let ghost before = self.keys();
        let ghost before_routes = self.routes();
        self.entries.push((key, sink));
        assert(self.keys() =~= before.push(key@));
        assert(self.routes() =~= before_routes.push((key@, sink)));
        assert(self.keys().no_duplicates()) by {
            assert forall|i: int, j: int| 0 <= i < j < self.keys().len() implies self.keys()[i] != self.keys()[j] by {
                if j == before.len() {
                    assert(before.contains(before[i]));
                }
            }
        }
        Ok(())
    }

    /// Takes the route of an infohash down, and gives its sink back.
    pub fn unregister(&mut self, key: &[u8; 20]) -> (r: Option<S>)
        requires
            old(self).wf(),
        ensures
            final(self).wf(),
            !final(self).keys().contains(key@),
            r is Some == old(self).keys().contains(key@),
            r matches Some(s) ==> exists|i: int| 0 <= i < old(self).routes().len() && #[trigger] old(self).routes()[i] == (key@, s),
            forall|k: Seq<u8>| #[trigger] final(self).keys().contains(k) <==> (old(self).keys().contains(k) && k != key@),
            !old(self).keys().contains(key@) ==> final(self).routes() == old(self).routes(),
            old(self).keys().contains(key@) ==> exists|i: int|
                0 <= i < old(self).routes().len()
                && #[trigger] old(self).routes()[i] == (key@, r->Some_0)
                && final(self).routes() == old(self).routes().remove(i),
    {
        let ghost before = self.keys();
        let ghost before_routes = self.routes();
        match self.find(key) {
            None => None,
            Some(i) => {
                assert(self.routes()[i as int] == (key@, self.entries@[i as int].1));
                let (_, sink) = self.entries.remove(i);
                assert(self.keys() =~= before.remove(i as int));
                assert(self.routes() =~= before_routes.remove(i as int));
                proof {
                    lemma_remove_unique(before, i as int);
                }
                Some(sink)
            },
        }
    }

    /// The sink of an infohash.
    pub fn lookup(&self, key: &[u8; 20]) -> (r: Option<&S>)
        ensures
            r is Some == self.keys().contains(key@),
            r matches Some(s) ==> exists|i: int| 0 <= i < self.routes().len() && #[trigger] self.routes()[i] == (key@, *s),
    {
        match self.find(key) {
            Some(i) => {
                assert(self.routes()[i as int] == (key@, self.entries@[i as int].1));
                Some(&self.entries[i].1)
            },
            None => None,
        }
    }

    /// Number of routes.
    pub fn len(&self) -> (r: usize)
        ensures
            r == self.keys().len(),
    {
        self.entries.len()
    }
}

proof fn lemma_remove_unique(s: Seq<Seq<u8>>, i: int)
    requires
        s.no_duplicates(),
        0 <= i < s.len(),
    ensures
        s.remove(i).no_duplicates(),
        forall|k: Seq<u8>| #[trigger] s.remove(i).contains(k) <==> (s.contains(k) && k != s[i]),
{
    let r = s.remove(i);
    assert forall|a: int, b: int| 0 <= a < b < r.len() implies r[a] != r[b] by {
        let oa = if a < i { a } else { a + 1 };
        let ob = if b < i { b } else { b + 1 };
        assert(r[a] == s[oa] && r[b] == s[ob]);
    }
    assert forall|k: Seq<u8>| #[trigger] r.contains(k) <==> (s.contains(k) && k != s[i]) by {
        if r.contains(k) {
            let a = choose|a: int| 0 <= a < r.len() && r[a] == k;
            let oa = if a < i { a } else { a + 1 };
            assert(s[oa] == k);
            assert(oa != i);
        }
        if s.contains(k) && k != s[i] {
            let j = choose|j: int| 0 <= j < s.len() && s[j] == k;
            assert(j != i);
            let rj = if j < i { j } else { j - 1 };
            assert(r[rj] == k);
        }
    }
}

/// The infohash under which a torrent's worker registers.
pub fn tracker_key(t: &Torrent) -> (r: Result<[u8; 20], TrackerError>)
    ensures
        r is Ok && r->Ok_0@ == t@.info.info_hash,
{
    match t.info_hash() {
        Some(h) => Ok(h),
        None => Err(TrackerError::InvalidTorrent),
    }
}

/// The tag that names this client in its peer id.
pub open spec fn agent_tag() -> Seq<u8> {
    seq![116u8, 99, 111, 114, 101]
}

/// What a peer id digests: the time in nanoseconds as decimal text, `|`,
/// the agent tag, `|`, and 16 random bytes.
pub open spec fn peer_id_input(nanos: int, salt: Seq<u8>) -> Seq<u8> {
    int_text(nanos) + seq![124u8] + agent_tag() + seq![124u8] + salt
}

/// A peer id from the time and 16 random bytes, which the caller draws.
pub fn generate_peer_id(nanos: i64, salt: &[u8; 16]) -> (r: [u8; 20])
    ensures
        r@ == sha1_of(peer_id_input(nanos as int, salt@)),
{
    let mut input: Vec<u8> = Vec::new();
    if nanos < 0 {
        input.push(45);
        let m: u64 = if nanos == i64::MIN { 9223372036854775808u64 } else { (-nanos) as u64 };
        push_decimal(&mut input, m);
    } else {
        push_decimal(&mut input, nanos as u64);
    }
    assert(input@ =~= int_text(nanos as int));
    input.push(124);
    input.extend_from_slice(&[116u8, 99, 111, 114, 101]);
    input.push(124);
    input.extend_from_slice(salt);
    assert(input@ =~= peer_id_input(nanos as int, salt@));
    make_sha1(input.as_slice())
}

} // verus!
