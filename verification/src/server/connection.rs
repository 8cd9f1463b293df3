//! The decisions of the event loops: what happens to a connection after
//! each thing that happens on it, and how a `GET` is served.
use vstd::prelude::*;

verus! {

/// What happened on a connection.
#[derive(PartialEq, Eq, Structural, Clone, Copy, Debug)]
pub enum ConnEvent {
    /// A read returned this many bytes (0: the client closed).
    Read(usize),
    ReadError,
    /// A response was written.
    Wrote,
    /// A write would block: the response is kept for a later try.
    WriteWouldBlock,
    WriteError,
    /// A turn of the loop, when idle connections are checked.
    Tick,
}

/// What to do with the connection next.
#[derive(PartialEq, Eq, Structural, Clone, Copy, Debug)]
pub enum ConnAction {
    Keep,
    /// A whole request has arrived: answer it.
    Process,
    Close,
}

/// A connection is closed when the client closes it, on a read or write
/// error, and when it has been idle longer than the timeout at a tick; a
/// read that completes a request makes it processed; otherwise it is kept.
pub open spec fn connection_step_of(
    last_activity_ms: u64,
    now_ms: u64,
    timeout_ms: u64,
    request_complete: bool,
    ev: ConnEvent,
) -> ConnAction {
    match ev {
        ConnEvent::Read(n) => if n == 0 {
            ConnAction::Close
        } else if request_complete {
            ConnAction::Process
        } else {
            ConnAction::Keep
        },
        ConnEvent::ReadError => ConnAction::Close,
        ConnEvent::WriteError => ConnAction::Close,
        ConnEvent::Tick => if now_ms > last_activity_ms && now_ms - last_activity_ms > timeout_ms {
            ConnAction::Close
        } else {
            ConnAction::Keep
        },
        ConnEvent::Wrote => ConnAction::Keep,
        ConnEvent::WriteWouldBlock => ConnAction::Keep,
    }
}

pub fn connection_step(
    last_activity_ms: u64,
    now_ms: u64,
    timeout_ms: u64,
    request_complete: bool,
    ev: ConnEvent,
) -> (a: ConnAction)
    ensures
        a == connection_step_of(last_activity_ms, now_ms, timeout_ms, request_complete, ev),
{
    match ev {
        ConnEvent::Read(n) => if n == 0 {
            ConnAction::Close
        } else if request_complete {
            ConnAction::Process
        } else {
            ConnAction::Keep
        },
        ConnEvent::ReadError => ConnAction::Close,
        ConnEvent::WriteError => ConnAction::Close,
        ConnEvent::Tick => if now_ms > last_activity_ms && now_ms - last_activity_ms > timeout_ms {
            ConnAction::Close
        } else {
            ConnAction::Keep
        },
        ConnEvent::Wrote => ConnAction::Keep,
        ConnEvent::WriteWouldBlock => ConnAction::Keep,
    }
}

/// Whether a connection last active at `last_ms` has been idle longer than
/// the timeout at `now_ms`.
pub open spec fn idle_too_long(last_ms: u64, now_ms: u64, timeout_ms: u64) -> bool {
    now_ms > last_ms && now_ms - last_ms > timeout_ms
}

/// The identifiers, in order, of the connections in `conns` (identifier,
/// time of last activity) that have been idle longer than the timeout.
pub open spec fn expired_ids(conns: Seq<(usize, u64)>, now_ms: u64, timeout_ms: u64) -> Seq<usize>
    decreases conns.len(),
{
    if conns.len() == 0 {
        seq![]
    } else {
        let rest = expired_ids(conns.drop_last(), now_ms, timeout_ms);
        if idle_too_long(conns.last().1, now_ms, timeout_ms) {
            rest.push(conns.last().0)
        } else {
            rest
        }
    }
}

/// The connections to close at a turn of the loop: those, among `conns`
/// (identifier, time of last activity), whose tick step is to close them.
pub fn expired_connections(conns: &Vec<(usize, u64)>, now_ms: u64, timeout_ms: u64) -> (r: Vec<usize>)
    ensures
        r@ == expired_ids(conns@, now_ms, timeout_ms),
{
    let mut out: Vec<usize> = Vec::new();
    let mut i: usize = 0;
    while i < conns.len()
        invariant
            i <= conns@.len(),
            out@ == expired_ids(conns@.take(i as int), now_ms, timeout_ms),
        decreases conns@.len() - i,
    {
        assert(conns@.take(i + 1).drop_last() =~= conns@.take(i as int));
        let (id, last) = conns[i];
        if connection_step(last, now_ms, timeout_ms, false, ConnEvent::Tick) == ConnAction::Close {
            out.push(id);
        }
        i = i + 1;
    }
    assert(conns@.take(i as int) =~= conns@);
    out
}

proof fn lemma_expired_ids(conns: Seq<(usize, u64)>, now_ms: u64, timeout_ms: u64)
    ensures
        forall|i: int| 0 <= i < conns.len() && idle_too_long(#[trigger] conns[i].1, now_ms, timeout_ms)
            ==> expired_ids(conns, now_ms, timeout_ms).contains(conns[i].0),
        forall|x: usize| #[trigger] expired_ids(conns, now_ms, timeout_ms).contains(x)
            ==> exists|i: int| 0 <= i < conns.len() && conns[i].0 == x && idle_too_long(conns[i].1, now_ms, timeout_ms),
    decreases conns.len(),
{
    if conns.len() > 0 {
        let d = conns.drop_last();
        lemma_expired_ids(d, now_ms, timeout_ms);
        let rest = expired_ids(d, now_ms, timeout_ms);
        let e = expired_ids(conns, now_ms, timeout_ms);
        assert forall|i: int| 0 <= i < conns.len() && idle_too_long(#[trigger] conns[i].1, now_ms, timeout_ms)
            implies e.contains(conns[i].0) by {
            if i < conns.len() - 1 {
                assert(d[i] == conns[i]);
                let j = choose|j: int| 0 <= j < rest.len() && rest[j] == conns[i].0;
                assert(e[j] == rest[j]);
            } else {
                assert(e[e.len() - 1] == conns[i].0);
            }
        }
        assert forall|x: usize| #[trigger] e.contains(x)
            implies exists|i: int| 0 <= i < conns.len() && conns[i].0 == x && idle_too_long(conns[i].1, now_ms, timeout_ms) by {
            let j = choose|j: int| 0 <= j < e.len() && e[j] == x;
            if j < rest.len() {
                assert(rest[j] == x);
                assert(rest.contains(x));
                let i = choose|i: int| 0 <= i < d.len() && d[i].0 == x && idle_too_long(d[i].1, now_ms, timeout_ms);
                assert(conns[i] == d[i]);
            } else {
                assert(conns[conns.len() - 1].0 == x);
            }
        }
    }
}

/// At each turn of the loop, every connection idle longer than the timeout
/// is among those closed, and only such connections are: so none outlives
/// the timeout by more than one turn.
pub proof fn law_sweep_closes_idle(conns: Seq<(usize, u64)>, now_ms: u64, timeout_ms: u64, i: int)
    requires
        0 <= i < conns.len(),
        forall|a: int, b: int| 0 <= a < b < conns.len() ==> conns[a].0 != conns[b].0,
    ensures
        expired_ids(conns, now_ms, timeout_ms).contains(conns[i].0) <==> connection_step_of(
            conns[i].1,
            now_ms,
            timeout_ms,
            false,
            ConnEvent::Tick,
        ) == ConnAction::Close,
{
    lemma_expired_ids(conns, now_ms, timeout_ms);
    if expired_ids(conns, now_ms, timeout_ms).contains(conns[i].0) {
        let j = choose|j: int| 0 <= j < conns.len() && conns[j].0 == conns[i].0 && idle_too_long(conns[j].1, now_ms, timeout_ms);
        assert(j == i);
    }
    if idle_too_long(conns[i].1, now_ms, timeout_ms) {
        assert(expired_ids(conns, now_ms, timeout_ms).contains(conns[i].0));
    }
}

/// Files larger than this many bytes are sent in chunks.
pub const WHOLE_FILE_LIMIT: u64 = 1000000;

/// How a `GET` that reached a file or directory is served.
#[derive(PartialEq, Eq, Structural, Clone, Copy, Debug)]
pub enum GetPlan {
    /// A directory that cannot be written: the 403 page.
    ReadOnlyDirectory,
    /// A directory whose route lists it: the listing page.
    Listing,
    /// A directory whose route does not list it: refused as an error (403).
    NotListed,
    /// A file sent whole.
    WholeFile,
    /// A file sent in chunks.
    ChunkedFile,
}

pub open spec fn get_plan_of(is_dir: bool, directory_listing: bool, readonly: bool, size: u64) -> GetPlan {
    if is_dir {
        if !directory_listing {
            GetPlan::NotListed
        } else if readonly {
            GetPlan::ReadOnlyDirectory
        } else {
            GetPlan::Listing
        }
    } else if size > WHOLE_FILE_LIMIT {
        GetPlan::ChunkedFile
    } else {
        GetPlan::WholeFile
    }
}

/// How to serve a `GET`: for a directory by whether its route lists it and
/// whether it is read-only, for a file by its size.
pub fn get_plan(is_dir: bool, directory_listing: bool, readonly: bool, size: u64) -> (r: GetPlan)
    ensures
        r == get_plan_of(is_dir, directory_listing, readonly, size),
{
    if is_dir {
        if !directory_listing {
            GetPlan::NotListed
        } else if readonly {
            GetPlan::ReadOnlyDirectory
        } else {
            GetPlan::Listing
        }
    } else if size > WHOLE_FILE_LIMIT {
        GetPlan::ChunkedFile
    } else {
        GetPlan::WholeFile
    }
}

/// An idle connection is closed at the first tick after the timeout, and
/// a connection with activity within the timeout is kept.
pub proof fn law_idle_connections_close(last_activity_ms: u64, now_ms: u64, timeout_ms: u64, complete: bool)
    ensures
        now_ms > last_activity_ms + timeout_ms ==> connection_step_of(
            last_activity_ms,
            now_ms,
            timeout_ms,
            complete,
            ConnEvent::Tick,
        ) == ConnAction::Close,
        now_ms <= last_activity_ms + timeout_ms ==> connection_step_of(
            last_activity_ms,
            now_ms,
            timeout_ms,
            complete,
            ConnEvent::Tick,
        ) == ConnAction::Keep,
{
}

} // verus!
