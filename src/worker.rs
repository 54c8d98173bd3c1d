use vstd::prelude::*;
use crate::text::{nat_text, push_decimal};
use vstd::string::StringSliceAdditionalSpecFns;

verus! {

broadcast use vstd::std_specs::vec::group_vec_axioms, vstd::seq::group_seq_axioms;

/// How long a paused worker sleeps before it looks at its commands again.
pub const PAUSE_MS: u64 = 500;

/// The longest wait after failed announces, in seconds.
pub const MAX_BACKOFF_SECS: u64 = 60;

/// After this many failed announces in a row the worker gives up.
pub const MAX_FAILURES: u32 = 8;

/// A control command for a worker.
#[derive(Debug, Clone, Copy, PartialEq, Eq, Structural)]
pub enum Command {
    Pause,
    Resume,
    Abort,
}

#[derive(Debug, Clone, Copy, PartialEq, Eq, Structural)]
pub enum WorkerState {
    Running,
    Paused,
    Aborted,
}

/// The event of an announce; `Empty` sends none.
#[derive(Debug, Clone, Copy, PartialEq, Eq, Structural)]
pub enum TrackerState {
    Started,
    Completed,
    Stopped,
    Empty,
}

/// What the loop around a worker must do next.
#[derive(Debug, Clone, Copy, PartialEq, Eq, Structural)]
pub enum WorkerAction {
    /// Announce to the tracker, with this event.
    Announce(TrackerState),
    /// Sleep this many milliseconds.
    Sleep(u64),
    /// Leave the loop and take the route down.
    Exit,
}

/// Bytes kept as they are by form encoding: `*-._`, digits and ASCII letters.
pub open spec fn form_unchanged(c: u8) -> bool {
    c == 42 || c == 45 || c == 46 || (48 <= c <= 57) || (65 <= c <= 90) || c == 95 || (97 <= c <= 122)
}

pub open spec fn hex_upper(n: int) -> u8 {
    if n < 10 {
        (48 + n) as u8
    } else {
        (55 + n) as u8
    }
}

/// The form encoding of one byte: kept, `+` for a space, else `%XX`.
pub open spec fn form_byte(c: u8) -> Seq<u8> {
    if form_unchanged(c) {
        seq![c]
    } else if c == 32 {
        seq![43u8]
    } else {
        seq![37u8, hex_upper(c as int / 16), hex_upper(c as int % 16)]
    }
}

/// The form encoding of a byte string, byte by byte.
pub open spec fn form_encode(b: Seq<u8>) -> Seq<u8>
    decreases b.len(),
{
    if b.len() == 0 {
        Seq::empty()
    } else {
        form_encode(b.drop_last()) + form_byte(b.last())
    }
}

/// Relies on url's `form_urlencoded::byte_serialize`: each byte in turn is
/// kept (`*-._`, digits, ASCII letters), becomes `+` (a space), or becomes
/// `%` and two upper-case hex digits.
#[verifier::external_body]
fn form_urlencode(b: &[u8]) -> (r: Vec<u8>)
    ensures
        r@ == form_encode(b@),
{
    url::form_urlencoded::byte_serialize(b).collect::<String>().into_bytes()
}

/// The percent-escaped text of a 20-byte digest or peer id, for a URL query.
pub fn escape_hash(hash: &[u8; 20]) -> (r: Vec<u8>)
    ensures
        r@ == form_encode(hash@),
{
    form_urlencode(hash)
}

pub open spec fn event_name(e: TrackerState) -> Seq<u8> {
    match e {
        TrackerState::Started => seq![115u8, 116, 97, 114, 116, 101, 100],
        TrackerState::Completed => seq![99u8, 111, 109, 112, 108, 101, 116, 101, 100],
        TrackerState::Stopped => seq![115u8, 116, 111, 112, 112, 101, 100],
        TrackerState::Empty => Seq::empty(),
    }
}

/// `{announce}?info_hash={hash}&peer_id={peer id}&port={port}`.
pub open spec fn base_url_spec(announce: Seq<u8>, info_hash: Seq<u8>, peer_id: Seq<u8>, port: nat) -> Seq<u8> {
    announce + seq![63u8, 105, 110, 102, 111, 95, 104, 97, 115, 104, 61] + form_encode(info_hash)
        + seq![38u8, 112, 101, 101, 114, 95, 105, 100, 61] + form_encode(peer_id)
        + seq![38u8, 112, 111, 114, 116, 61] + nat_text(port)
}

/// The base URL with the counters, and the event where there is one.
pub open spec fn announce_url_spec(base: Seq<u8>, uploaded: nat, downloaded: nat, left: nat, ev: TrackerState) -> Seq<u8> {
    base + seq![38u8, 117, 112, 108, 111, 97, 100, 101, 100, 61] + nat_text(uploaded)
        + seq![38u8, 100, 111, 119, 110, 108, 111, 97, 100, 101, 100, 61] + nat_text(downloaded)
        + seq![38u8, 108, 101, 102, 116, 61] + nat_text(left)
        + if ev == TrackerState::Empty {
            Seq::empty()
        } else {
            seq![38u8, 101, 118, 101, 110, 116, 61] + event_name(ev)
        }
}

/// The URL of a tracker announce that stays the same for a torrent.
pub fn base_url(announce: &str, info_hash: &[u8; 20], peer_id: &[u8; 20], port: u16) -> (r: Vec<u8>)
    ensures
        r@ == base_url_spec(announce.spec_bytes(), info_hash@, peer_id@, port as nat),
{
    let mut out: Vec<u8> = Vec::new();
    out.extend_from_slice(announce.as_bytes());
    out.extend_from_slice(&[63u8, 105, 110, 102, 111, 95, 104, 97, 115, 104, 61]);
    let ih = escape_hash(info_hash);
    out.extend_from_slice(ih.as_slice());
    out.extend_from_slice(&[38u8, 112, 101, 101, 114, 95, 105, 100, 61]);
    let pid = escape_hash(peer_id);
    out.extend_from_slice(pid.as_slice());
    out.extend_from_slice(&[38u8, 112, 111, 114, 116, 61]);
    push_decimal(&mut out, port as u64);
    assert(out@ =~= base_url_spec(announce.spec_bytes(), info_hash@, peer_id@, port as nat));
    out
}

/// The URL of one announce: the base URL, the counters, and the event.
pub fn build_url(base: &[u8], uploaded: u64, downloaded: u64, left: u64, ev: TrackerState) -> (r: Vec<u8>)
    ensures
        r@ == announce_url_spec(base@, uploaded as nat, downloaded as nat, left as nat, ev),
{
    let mut out: Vec<u8> = Vec::new();
    out.extend_from_slice(base);
    out.extend_from_slice(&[38u8, 117, 112, 108, 111, 97, 100, 101, 100, 61]);
    push_decimal(&mut out, uploaded);
    out.extend_from_slice(&[38u8, 100, 111, 119, 110, 108, 111, 97, 100, 101, 100, 61]);
    push_decimal(&mut out, downloaded);
    out.extend_from_slice(&[38u8, 108, 101, 102, 116, 61]);
    push_decimal(&mut out, left);
    let ghost core = out@;
    match ev {
        TrackerState::Empty => {},
        TrackerState::Started => {
            out.extend_from_slice(&[38u8, 101, 118, 101, 110, 116, 61]);
            out.extend_from_slice(&[115u8, 116, 97, 114, 116, 101, 100]);
        },
        TrackerState::Completed => {
            out.extend_from_slice(&[38u8, 101, 118, 101, 110, 116, 61]);
            out.extend_from_slice(&[99u8, 111, 109, 112, 108, 101, 116, 101, 100]);
        },
        TrackerState::Stopped => {
            out.extend_from_slice(&[38u8, 101, 118, 101, 110, 116, 61]);
            out.extend_from_slice(&[115u8, 116, 111, 112, 112, 101, 100]);
        },
    }
    assert(out@ =~= announce_url_spec(base@, uploaded as nat, downloaded as nat, left as nat, ev));
    out
}

/// Seconds to wait after `failures` failed announces in a row: 1, 2, 4, ...
/// and never more than `MAX_BACKOFF_SECS`.
pub open spec fn backoff_spec(failures: nat) -> nat
    decreases failures,
{
    if failures == 0 {
        0
    } else if failures == 1 {
        1
    } else if 2 * backoff_spec((failures - 1) as nat) > MAX_BACKOFF_SECS {
        MAX_BACKOFF_SECS as nat
    } else {
        2 * backoff_spec((failures - 1) as nat)
    }
}

proof fn lemma_backoff_bound(n: nat)
    ensures
        backoff_spec(n) <= MAX_BACKOFF_SECS,
    decreases n,
{
    if n > 1 {
        lemma_backoff_bound((n - 1) as nat);
    }
}

pub fn backoff_secs(failures: u32) -> (r: u64)
    ensures
        r == backoff_spec(failures as nat),
{
    if failures == 0 {
        return 0;
    }
    let mut secs: u64 = 1;
    let mut i: u32 = 1;
    while i < failures
        invariant
            1 <= i <= failures,
            secs == backoff_spec(i as nat),
        decreases failures - i,
    {
        proof {
            lemma_backoff_bound(i as nat);
        }
        secs = if 2 * secs > MAX_BACKOFF_SECS { MAX_BACKOFF_SECS } else { 2 * secs };
        i = i + 1;
    }
    secs
}

/// A worker's state, as its decisions see it.
pub struct WorkerView {
    pub uploaded: nat,
    pub downloaded: nat,
    pub left: nat,
    pub state: WorkerState,
    pub tracker: TrackerState,
    /// Whether an announce has gone through.
    pub announced: bool,
    /// Milliseconds to wait before the next announce.
    pub wait_ms: nat,
    /// Failed announces in a row.
    pub failures: nat,
}

/// The event of the next announce of a running worker: `started` first,
/// `completed` once nothing is left, else none.
pub open spec fn next_event(w: WorkerView) -> TrackerState {
    if !w.announced {
        TrackerState::Started
    } else if w.left == 0 && w.tracker != TrackerState::Completed && w.tracker != TrackerState::Stopped {
        TrackerState::Completed
    } else {
        TrackerState::Empty
    }
}

/// What a worker does next.
pub open spec fn plan_spec(w: WorkerView) -> WorkerAction {
    match w.state {
        WorkerState::Aborted => if w.announced && w.tracker != TrackerState::Stopped {
            WorkerAction::Announce(TrackerState::Stopped)
        } else {
            WorkerAction::Exit
        },
        WorkerState::Paused => WorkerAction::Sleep(PAUSE_MS),
        WorkerState::Running => if w.wait_ms > 0 {
            WorkerAction::Sleep(if w.wait_ms > u64::MAX { u64::MAX } else { w.wait_ms as u64 })
        } else {
            WorkerAction::Announce(next_event(w))
        },
    }
}

/// A command: an aborted worker stays aborted.
pub open spec fn command_spec(w: WorkerView, c: Command) -> WorkerView {
    if w.state == WorkerState::Aborted {
        w
    } else {
        WorkerView {
            state: match c {
                Command::Pause => WorkerState::Paused,
                Command::Resume => WorkerState::Running,
                Command::Abort => WorkerState::Aborted,
            },
            ..w
        }
    }
}

/// An announce went through; the tracker asks for the next one after `interval` seconds.
pub open spec fn announced_spec(w: WorkerView, ev: TrackerState, interval: nat) -> WorkerView {
    WorkerView {
        announced: true,
        failures: 0,
        tracker: if ev == TrackerState::Empty { w.tracker } else { ev },
        wait_ms: interval * 1000,
        ..w
    }
}

/// An announce failed: wait longer each time, and give up after too many.
/// A failed `stopped` announce is not sent again.
pub open spec fn failed_spec(w: WorkerView, ev: TrackerState) -> WorkerView {
    WorkerView {
        failures: w.failures + 1,
        wait_ms: backoff_spec(w.failures + 1) * 1000,
        tracker: if ev == TrackerState::Stopped { TrackerState::Stopped } else { w.tracker },
        state: if w.failures + 1 >= MAX_FAILURES { WorkerState::Aborted } else { w.state },
        ..w
    }
}

/// The decisions of a per-torrent worker: which announce to make, when to
/// sleep, when to stop. The loop that performs them lives with the runtime.
pub struct Worker {
    base_url: Vec<u8>,
    uploaded: u64,
    downloaded: u64,
    left: u64,
    worker_state: WorkerState,
    tracker_state: TrackerState,
    announced: bool,
    wait_ms: u64,
    failures: u32,
}

impl View for Worker {
    type V = WorkerView;

    closed spec fn view(&self) -> WorkerView {
        WorkerView {
            uploaded: self.uploaded as nat,
            downloaded: self.downloaded as nat,
            left: self.left as nat,
            state: self.worker_state,
            tracker: self.tracker_state,
            announced: self.announced,
            wait_ms: self.wait_ms as nat,
            failures: self.failures as nat,
        }
    }
}

impl Worker {
    pub closed spec fn base(&self) -> Seq<u8> {
        self.base_url@
    }

    /// A running worker for a torrent with `left` bytes still to fetch.
    pub fn new(announce: &str, info_hash: &[u8; 20], peer_id: &[u8; 20], port: u16, left: u64) -> (r: Worker)
        ensures
            r.base() == base_url_spec(announce.spec_bytes(), info_hash@, peer_id@, port as nat),
            r@ == (WorkerView {
                uploaded: 0,
                downloaded: 0,
                left: left as nat,
                state: WorkerState::Running,
                tracker: TrackerState::Empty,
                announced: false,
                wait_ms: 0,
                failures: 0,
            }),
    {
        Worker {
            base_url: base_url(announce, info_hash, peer_id, port),
            uploaded: 0,
            downloaded: 0,
            left,
            worker_state: WorkerState::Running,
            tracker_state: TrackerState::Empty,
            announced: false,
            wait_ms: 0,
            failures: 0,
        }
    }

    pub fn state(&self) -> (r: WorkerState)
        ensures
            r == self@.state,
    {
        self.worker_state
    }

    /// Failed announces in a row.
    pub fn failures(&self) -> (r: u32)
        ensures
            r == self@.failures,
    {
        self.failures
    }

    pub fn handle_cmd(&mut self, cmd: Command)
        ensures
            final(self)@ == command_spec(old(self)@, cmd),
            final(self).base() == old(self).base(),
    {
        if self.worker_state == WorkerState::Aborted {
            return;
        }
        match cmd {
            Command::Pause => self.worker_state = WorkerState::Paused,
            Command::Resume => self.worker_state = WorkerState::Running,
            Command::Abort => self.worker_state = WorkerState::Aborted,
        }
    }

    /// The command channel closed: that counts as `Abort`.
    pub fn commands_closed(&mut self)
        ensures
            final(self)@ == command_spec(old(self)@, Command::Abort),
            final(self).base() == old(self).base(),
    {
        self.handle_cmd(Command::Abort)
    }

    /// What to do next.
    pub fn plan(&self) -> (r: WorkerAction)
        ensures
            r == plan_spec(self@),
    {
        match self.worker_state {
            WorkerState::Aborted => if self.announced && self.tracker_state != TrackerState::Stopped {
                WorkerAction::Announce(TrackerState::Stopped)
            } else {
                WorkerAction::Exit
            },
            WorkerState::Paused => WorkerAction::Sleep(PAUSE_MS),
            WorkerState::Running => if self.wait_ms > 0 {
                WorkerAction::Sleep(self.wait_ms)
            } else {
                WorkerAction::Announce(self.next_event())
            },
        }
    }

    fn next_event(&self) -> (r: TrackerState)
        ensures
            r == next_event(self@),
    {
        if !self.announced {
            TrackerState::Started
        } else if self.left == 0 && self.tracker_state != TrackerState::Completed && self.tracker_state != TrackerState::Stopped {
            TrackerState::Completed
        } else {
            TrackerState::Empty
        }
    }

    /// The URL of an announce with the event `ev`.
    pub fn build_url(&self, ev: TrackerState) -> (r: Vec<u8>)
        ensures
            r@ == announce_url_spec(self.base(), self@.uploaded, self@.downloaded, self@.left, ev),
    {
        build_url(self.base_url.as_slice(), self.uploaded, self.downloaded, self.left, ev)
    }

    /// The announce with event `ev` went through; the next one is due
    /// after `interval` seconds.
    pub fn announce_succeeded(&mut self, ev: TrackerState, interval: u32)
        ensures
            final(self)@ == announced_spec(old(self)@, ev, interval as nat),
            final(self).base() == old(self).base(),
    {
        self.announced = true;
        self.failures = 0;
        if ev != TrackerState::Empty {
            self.tracker_state = ev;
        }
        self.wait_ms = interval as u64 * 1000;
    }

    /// The announce with event `ev` failed.
    pub fn announce_failed(&mut self, ev: TrackerState)
        requires
            old(self)@.failures < u32::MAX,
        ensures
            final(self)@ == failed_spec(old(self)@, ev),
            final(self).base() == old(self).base(),
    {
        self.failures = self.failures + 1;
        proof {
            lemma_backoff_bound(self.failures as nat);
        }
        self.wait_ms = backoff_secs(self.failures) * 1000;
        if ev == TrackerState::Stopped {
            self.tracker_state = TrackerState::Stopped;
        }
        if self.failures >= MAX_FAILURES {
            self.worker_state = WorkerState::Aborted;
        }
    }

    /// The sleep that `plan` asked for is over.
    pub fn slept(&mut self)
        ensures
            final(self)@ == (WorkerView { wait_ms: 0, ..old(self)@ }),
            final(self).base() == old(self).base(),
    {
        self.wait_ms = 0;
    }
}

/// A worker that gets `Abort` leaves its loop after at most one more
/// announce (the `stopped` one, whether it goes through or not); until
/// then it does no sleep of its own.
pub proof fn law_abort_exits(w: WorkerView, interval: nat)
    ensures
        ({
            let a = command_spec(w, Command::Abort);
            &&& plan_spec(a) == WorkerAction::Exit || plan_spec(a) == WorkerAction::Announce(TrackerState::Stopped)
            &&& plan_spec(a) == WorkerAction::Announce(TrackerState::Stopped) ==> {
                &&& plan_spec(announced_spec(a, TrackerState::Stopped, interval)) == WorkerAction::Exit
                &&& plan_spec(failed_spec(a, TrackerState::Stopped)) == WorkerAction::Exit
            }
        }),
{
}

} // verus!
