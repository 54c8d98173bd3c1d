use vstd::prelude::*;
use crate::value::{Value, BValue, pairs_view, values_view, lemma_list_view, lemma_dict_view};
use crate::decoder::{DecodeError, decode, decode_spec};
use crate::text::{nat_text, push_decimal};

verus! {

broadcast use vstd::std_specs::vec::group_vec_axioms, vstd::seq::group_seq_axioms;

/// Why a tracker's answer could not be read.
#[derive(Debug, Clone, Copy, PartialEq, Eq, Structural)]
pub enum AnnounceError {
    Decode(DecodeError),
    NotADictionary,
    MissingInterval,
    InvalidPeers,
}

pub open spec fn key_failure_reason() -> Seq<u8> {
    seq![102u8, 97, 105, 108, 117, 114, 101, 32, 114, 101, 97, 115, 111, 110]
}

pub open spec fn key_interval() -> Seq<u8> {
    seq![105u8, 110, 116, 101, 114, 118, 97, 108]
}

pub open spec fn key_peers() -> Seq<u8> {
    seq![112u8, 101, 101, 114, 115]
}

pub open spec fn key_ip() -> Seq<u8> {
    seq![105u8, 112]
}

pub open spec fn key_port() -> Seq<u8> {
    seq![112u8, 111, 114, 116]
}

pub open spec fn key_peer_id() -> Seq<u8> {
    seq![112u8, 101, 101, 114, 32, 105, 100]
}

/// The value of the first pair with key `k`.
pub open spec fn lookup(d: Seq<(Seq<u8>, BValue)>, k: Seq<u8>) -> Option<BValue>
    decreases d.len(),
{
    if d.len() == 0 {
        None
    } else if d[0].0 == k {
        Some(d[0].1)
    } else {
        lookup(d.subrange(1, d.len() as int), k)
    }
}

pub struct PeerModel {
    pub peer_id: Option<Seq<u8>>,
    pub ip: Seq<u8>,
    pub port: int,
}

pub enum ResponseModel {
    Success(int, Seq<PeerModel>),
    Failed(Seq<u8>),
}

/// `a.b.c.d` for four address bytes.
pub open spec fn dotted(a: Seq<u8>) -> Seq<u8> {
    nat_text(a[0] as nat) + seq![46u8] + nat_text(a[1] as nat) + seq![46u8] + nat_text(a[2] as nat) + seq![46u8] + nat_text(a[3] as nat)
}

/// The peer of the `i`-th six bytes of a compact list: an IPv4 address,
/// then a port with its high byte first.
pub open spec fn compact_peer(c: Seq<u8>, i: int) -> PeerModel {
    PeerModel {
        peer_id: None,
        ip: dotted(c.subrange(6 * i, 6 * i + 4)),
        port: c[6 * i + 4] as int * 256 + c[6 * i + 5] as int,
    }
}

/// A peer given as a dictionary: `ip` and `port` are needed, `peer id` is kept where it is a byte string.
pub open spec fn peer_of(v: BValue) -> Option<PeerModel> {
    match v {
        BValue::Dict(d) => match (lookup(d, key_ip()), lookup(d, key_port())) {
            (Some(BValue::Bytes(ip)), Some(BValue::Int(p))) => if 0 <= p <= 65535 {
                Some(PeerModel {
                    peer_id: match lookup(d, key_peer_id()) {
                        Some(BValue::Bytes(id)) => Some(id),
                        _ => None,
                    },
                    ip,
                    port: p,
                })
            } else {
                None
            },
            _ => None,
        },
        _ => None,
    }
}

pub open spec fn list_peers(l: Seq<BValue>) -> Option<Seq<PeerModel>>
    decreases l.len(),
{
    if l.len() == 0 {
        Some(Seq::empty())
    } else {
        match (list_peers(l.drop_last()), peer_of(l.last())) {
            (Some(ps), Some(p)) => Some(ps.push(p)),
            _ => None,
        }
    }
}

pub open spec fn peers_spec(o: Option<BValue>) -> Result<Seq<PeerModel>, AnnounceError> {
    match o {
        Some(BValue::Bytes(c)) => if c.len() % 6 == 0 {
            Ok(Seq::new((c.len() / 6) as nat, |i: int| compact_peer(c, i)))
        } else {
            Err(AnnounceError::InvalidPeers)
        },
        Some(BValue::List(l)) => match list_peers(l) {
            Some(ps) => Ok(ps),
            None => Err(AnnounceError::InvalidPeers),
        },
        _ => Err(AnnounceError::InvalidPeers),
    }
}

/// What a tracker's decoded answer says: a failure with its reason, or
/// when to announce next and the peers.
pub open spec fn response_spec(v: BValue) -> Result<ResponseModel, AnnounceError> {
    match v {
        BValue::Dict(d) => match lookup(d, key_failure_reason()) {
            Some(BValue::Bytes(r)) => Ok(ResponseModel::Failed(r)),
            _ => match lookup(d, key_interval()) {
                Some(BValue::Int(i)) => if 0 <= i <= u32::MAX {
                    match peers_spec(lookup(d, key_peers())) {
                        Ok(ps) => Ok(ResponseModel::Success(i, ps)),
                        Err(e) => Err(e),
                    }
                } else {
                    Err(AnnounceError::MissingInterval)
                },
                _ => Err(AnnounceError::MissingInterval),
            },
        },
        _ => Err(AnnounceError::NotADictionary),
    }
}

/// What a tracker's answer body says.
pub open spec fn announce_spec(body: Seq<u8>) -> Result<ResponseModel, AnnounceError> {
    match decode_spec(body) {
        Ok(v) => response_spec(v),
        Err(e) => Err(AnnounceError::Decode(e)),
    }
}

/// A peer that a tracker named.
#[derive(Debug, PartialEq)]
pub struct Peer {
    peer_id: Option<Vec<u8>>,
    ip: Vec<u8>,
    port: u16,
}

impl View for Peer {
    type V = PeerModel;

    closed spec fn view(&self) -> PeerModel {
        PeerModel {
            peer_id: match self.peer_id {
                Some(v) => Some(v@),
                None => None,
            },
            ip: self.ip@,
            port: self.port as int,
        }
    }
}

impl Peer {
    pub fn peer_id(&self) -> (r: Option<&Vec<u8>>)
        ensures
            match r {
                Some(v) => self@.peer_id == Some(v@),
                None => self@.peer_id is None,
            },
    {
        match &self.peer_id {
            Some(v) => Some(v),
            None => None,
        }
    }

    /// The address as text.
    pub fn ip(&self) -> (r: &[u8])
        ensures
            r@ == self@.ip,
    {
        self.ip.as_slice()
    }

    pub fn port(&self) -> (r: u16)
        ensures
            r == self@.port,
    {
        self.port
    }
}

/// A tracker's answer that went through.
#[derive(Debug, PartialEq)]
pub struct TorrentResponseSuccess {
    interval: u32,
    peers: Vec<Peer>,
}

impl TorrentResponseSuccess {
    pub closed spec fn spec_interval(&self) -> int {
        self.interval as int
    }

    pub closed spec fn spec_peers(&self) -> Seq<PeerModel> {
        peers_view(self.peers@)
    }

    /// Seconds until the next announce.
    pub fn interval(&self) -> (r: u32)
        ensures
            r == self.spec_interval(),
    {
        self.interval
    }

    pub fn peers(&self) -> (r: &Vec<Peer>)
        ensures
            peers_view(r@) == self.spec_peers(),
    {
        &self.peers
    }
}

#[derive(Debug, PartialEq)]
pub enum TorrentResponse {
    Success(TorrentResponseSuccess),
    Failed(Vec<u8>),
}

pub open spec fn peers_view(ps: Seq<Peer>) -> Seq<PeerModel> {
    Seq::new(ps.len(), |i: int| ps[i]@)
}

impl View for TorrentResponse {
    type V = ResponseModel;

    open spec fn view(&self) -> ResponseModel {
        match self {
            TorrentResponse::Success(s) => ResponseModel::Success(s.spec_interval(), s.spec_peers()),
            TorrentResponse::Failed(r) => ResponseModel::Failed(r@),
        }
    }
}

fn lookup_value<'a>(d: &'a Vec<(Vec<u8>, Value)>, k: &[u8]) -> (r: Option<&'a Value>)
    ensures
        match lookup(pairs_view(d@), k@) {
            Some(v) => r is Some && r->Some_0@ == v,
            None => r is None,
        },
{
    let ghost pv = pairs_view(d@);
    let mut i: usize = 0;
    assert(pv.subrange(0, pv.len() as int) =~= pv);
    while i < d.len()
        invariant
            i <= d@.len(),
            pv == pairs_view(d@),
            lookup(pv, k@) == lookup(pv.subrange(i as int, pv.len() as int), k@),
        decreases d.len() - i,
    {
        let ghost sub = pv.subrange(i as int, pv.len() as int);
        assert(sub[0] == pv[i as int]);
        if crate::digest::is_equal_sha1_slice(d[i].0.as_slice(), k) {
            return Some(&d[i].1);
        }
        assert(sub.subrange(1, sub.len() as int) =~= pv.subrange(i + 1, pv.len() as int));
        i = i + 1;
    }
    None
}

fn dotted_text(a: u8, b: u8, c: u8, d: u8) -> (r: Vec<u8>)
    ensures
        r@ == dotted(seq![a, b, c, d]),
{
    let mut out: Vec<u8> = Vec::new();
    push_decimal(&mut out, a as u64);
    out.push(46);
    push_decimal(&mut out, b as u64);
    out.push(46);
    push_decimal(&mut out, c as u64);
    out.push(46);
    push_decimal(&mut out, d as u64);
    assert(out@ =~= dotted(seq![a, b, c, d]));
    out
}

fn compact_peers(c: &Vec<u8>) -> (r: Vec<Peer>)
    requires
        c@.len() % 6 == 0,
    ensures
        peers_view(r@) == Seq::new((c@.len() / 6) as nat, |i: int| compact_peer(c@, i)),
{
    let mut out: Vec<Peer> = Vec::new();
    let len = c.len();
    let n = len / 6;
    let mut i: usize = 0;
    while i < n
        invariant
            len == c@.len(),
            n == c@.len() / 6,
            i <= n,
            peers_view(out@) =~= Seq::new(i as nat, |j: int| compact_peer(c@, j)),
        decreases n - i,
    {
        assert(6 * i + 6 <= c@.len()) by (nonlinear_arith)
            requires
                i < n,
                n == c@.len() / 6,
        ;
        let o = 6 * i;
        let ip = dotted_text(c[o], c[o + 1], c[o + 2], c[o + 3]);
        assert(seq![c@[o as int], c@[o + 1], c@[o + 2], c@[o + 3]] =~= c@.subrange(6 * i, 6 * i + 4));
        let hi = c[o + 4] as u16;
        let lo = c[o + 5] as u16;
        assert(hi * 256 + lo <= 65535) by (nonlinear_arith)
            requires
                hi <= 255,
                lo <= 255,
        ;
        let port = hi * 256 + lo;
        let peer = Peer { peer_id: None, ip, port };
        assert(peer@ == compact_peer(c@, i as int));
        let ghost before = peers_view(out@);
        out.push(peer);
        assert(peers_view(out@) =~= before.push(peer@));
        i = i + 1;
    }
    out
}

fn peer_from(v: &Value) -> (r: Option<Peer>)
    ensures
        match peer_of(v@) {
            Some(p) => r is Some && r->Some_0@ == p,
            None => r is None,
        },
{
    match v {
        Value::Dictionary(d) => {
            proof {
                lemma_dict_view(*d);
            }
            let ip = match lookup_value(d, &[105u8, 112]) {
                Some(Value::String(ip)) => ip,
                _ => {
                    return None;
                },
            };
            let port = match lookup_value(d, &[112u8, 111, 114, 116]) {
                Some(Value::Int(p)) => *p,
                _ => {
                    return None;
                },
            };
            if port < 0 || port > 65535 {
                return None;
            }
            let peer_id = match lookup_value(d, &[112u8, 101, 101, 114, 32, 105, 100]) {
                Some(Value::String(id)) => Some(vstd::slice::slice_to_vec(id.as_slice())),
                _ => None,
            };
            Some(Peer { peer_id, ip: vstd::slice::slice_to_vec(ip.as_slice()), port: port as u16 })
        },
        _ => None,
    }
}

fn peers_from_list(l: &Vec<Value>) -> (r: Option<Vec<Peer>>)
    ensures
        match list_peers(values_view(l@)) {
            Some(ps) => r is Some && peers_view(r->Some_0@) == ps,
            None => r is None,
        },
{
    let ghost lv = values_view(l@);
    let mut out: Vec<Peer> = Vec::new();
    let mut i: usize = 0;
    assert(lv.subrange(0, 0) =~= Seq::<BValue>::empty());
    assert(peers_view(out@) =~= Seq::<PeerModel>::empty());
    while i < l.len()
        invariant
            i <= l@.len(),
            lv == values_view(l@),
            list_peers(lv.subrange(0, i as int)) == Some(peers_view(out@)),
        decreases l.len() - i,
    {
        let ghost pre = lv.subrange(0, i + 1);
        assert(pre.drop_last() =~= lv.subrange(0, i as int));
        assert(pre.last() == l@[i as int]@);
        match peer_from(&l[i]) {
            Some(p) => {
                let ghost before = peers_view(out@);
                out.push(p);
                assert(peers_view(out@) =~= before.push(p@));
            },
            None => {
                assert(list_peers(lv.subrange(0, i + 1)) is None);
                proof {
                    lemma_list_peers_none(lv, i as int + 1);
                }
                return None;
            },
        }
        i = i + 1;
    }
    assert(lv.subrange(0, l@.len() as int) =~= lv);
    Some(out)
}

/// Once a prefix of the list has a peer that is not one, the whole list fails.
proof fn lemma_list_peers_none(l: Seq<BValue>, k: int)
    requires
        0 <= k <= l.len(),
        list_peers(l.subrange(0, k)) is None,
    ensures
        list_peers(l) is None,
    decreases l.len() - k,
{
    if k < l.len() {
        let pre = l.subrange(0, k + 1);
        assert(pre.drop_last() =~= l.subrange(0, k));
        lemma_list_peers_none(l, k + 1);
    } else {
        assert(l.subrange(0, k) =~= l);
    }
}

/// Reads the decoded answer of a tracker.
pub fn read_response(v: &Value) -> (r: Result<TorrentResponse, AnnounceError>)
    ensures
        match response_spec(v@) {
            Ok(m) => r is Ok && r->Ok_0@ == m,
            Err(e) => r == Err::<TorrentResponse, AnnounceError>(e),
        },
{
    let d = match v {
        Value::Dictionary(d) => d,
        _ => {
            return Err(AnnounceError::NotADictionary);
        },
    };
    proof {
        lemma_dict_view(*d);
    }
    match lookup_value(d, &[102u8, 97, 105, 108, 117, 114, 101, 32, 114, 101, 97, 115, 111, 110]) {
        Some(Value::String(reason)) => {
            return Ok(TorrentResponse::Failed(vstd::slice::slice_to_vec(reason.as_slice())));
        },
        _ => {},
    }
    let interval = match lookup_value(d, &[105u8, 110, 116, 101, 114, 118, 97, 108]) {
        Some(Value::Int(i)) => *i,
        _ => {
            return Err(AnnounceError::MissingInterval);
        },
    };
    if interval < 0 || interval > 4294967295 {
        return Err(AnnounceError::MissingInterval);
    }
    let peers = match lookup_value(d, &[112u8, 101, 101, 114, 115]) {
        Some(Value::String(c)) => {
            if c.len() % 6 != 0 {
                return Err(AnnounceError::InvalidPeers);
            }
            compact_peers(c)
        },
        Some(Value::List(l)) => {
            proof {
                lemma_list_view(*l);
            }
            match peers_from_list(l) {
                Some(ps) => ps,
                None => {
                    return Err(AnnounceError::InvalidPeers);
                },
            }
        },
        _ => {
            return Err(AnnounceError::InvalidPeers);
        },
    };
    Ok(TorrentResponse::Success(TorrentResponseSuccess { interval: interval as u32, peers }))
}

/// Reads the body of a tracker's answer to an announce.
pub fn parse_announce_response(body: &[u8]) -> (r: Result<TorrentResponse, AnnounceError>)
    ensures
        match announce_spec(body@) {
            Ok(m) => r is Ok && r->Ok_0@ == m,
            Err(e) => r == Err::<TorrentResponse, AnnounceError>(e),
        },
{
    match decode(body) {
        Ok(v) => read_response(&v),
        Err(e) => Err(AnnounceError::Decode(e)),
    }
}

} // verus!
