//! Queries and the pool that drives them to completion.

use vstd::prelude::*;

use crate::clock::now_millis;
use crate::kad::closest::{
    added_all, candidates_of, closest_next, closest_on_failure, closest_on_success, succeeded_peers, up_to_len,
    ClosestPeersIter, ClosestPeersIterConfig, PeersIterState, ALPHA_VALUE, K_VALUE,
};
use crate::kad::disjoint::{
    all_finished, disjoint_next, disjoint_on_failure, disjoint_on_success,
    lemma_all_finished_alike, path_results, paths_take_answer, same_paths, settled_with_any,
    takes_answer, ClosestDisjointPeersIter,
};
use crate::kad::fixed::{
    fixed_next, fixed_on_failure, fixed_on_success, fixed_succeeded, FixedPeerState,
    FixedPeersIter,
};
use crate::kad::key::Key;
use crate::peer::PeerId;

verus! {

/// The timeout of a query by default, in milliseconds.
pub const QUERY_TIMEOUT_MS: u64 = 60000;

/// The timeout of a request to one peer, in milliseconds.
pub const REQUEST_TIMEOUT_MS: u64 = 10000;

/// Unique identifier for an active query.
#[derive(Debug, Copy, Clone, Hash, PartialEq, Eq, Structural)]
pub struct QueryId(usize);

impl QueryId {
    pub closed spec fn spec_value(&self) -> usize {
        self.0
    }

    /// The number behind the identifier.
    pub fn value(&self) -> (r: usize)
        ensures
            r == self.spec_value(),
    {
        self.0
    }
}

/// The configuration for queries in a pool.
#[derive(Debug, Clone, Copy)]
pub struct QueryConfig {
    /// Timeout of a single query, in milliseconds.
    pub timeout: u64,
    /// The replication factor.
    pub replication_factor: usize,
    /// Allowed level of parallelism for iterative queries.
    pub parallelism: usize,
    /// Whether lookups use disjoint paths.
    pub disjoint_query_paths: bool,
}

impl Default for QueryConfig {
    fn default() -> (r: Self)
        ensures
            r.timeout == QUERY_TIMEOUT_MS,
            r.replication_factor == K_VALUE,
            r.parallelism == ALPHA_VALUE,
            !r.disjoint_query_paths,
    {
        QueryConfig {
            timeout: QUERY_TIMEOUT_MS,
            replication_factor: K_VALUE,
            parallelism: ALPHA_VALUE,
            disjoint_query_paths: false,
        }
    }
}

/// `a + b`, or the largest `u32` where that lies beyond.
pub open spec fn sat_add(a: u32, b: u32) -> u32 {
    if a + b <= u32::MAX {
        (a + b) as u32
    } else {
        u32::MAX
    }
}

fn saturating_add_u32(a: u32, b: u32) -> (r: u32)
    ensures
        r == sat_add(a, b),
{
    if a <= u32::MAX - b {
        a + b
    } else {
        u32::MAX
    }
}

/// The earlier of two optional instants; either where the other is missing.
pub open spec fn earliest(a: Option<u64>, b: Option<u64>) -> Option<u64> {
    match (a, b) {
        (Some(x), Some(y)) => Some(if x <= y { x } else { y }),
        (Some(x), None) => Some(x),
        (None, y) => y,
    }
}

/// The later of two optional instants; a missing one is earlier than any.
pub open spec fn latest(a: Option<u64>, b: Option<u64>) -> Option<u64> {
    match (a, b) {
        (Some(x), Some(y)) => Some(if x >= y { x } else { y }),
        (Some(x), None) => Some(x),
        (None, y) => y,
    }
}

/// Execution statistics of a query. Instants are in milliseconds.
#[derive(Clone, Copy, Debug, PartialEq, Eq, Structural)]
pub struct QueryStats {
    requests: u32,
    success: u32,
    failure: u32,
    start: Option<u64>,
    end: Option<u64>,
}

impl QueryStats {
    pub closed spec fn spec_requests(&self) -> u32 {
        self.requests
    }

    pub closed spec fn spec_success(&self) -> u32 {
        self.success
    }

    pub closed spec fn spec_failure(&self) -> u32 {
        self.failure
    }

    pub closed spec fn spec_start(&self) -> Option<u64> {
        self.start
    }

    pub closed spec fn spec_end(&self) -> Option<u64> {
        self.end
    }

    /// Statistics of a query that has not started.
    pub fn empty() -> (r: Self)
        ensures
            r.spec_requests() == 0,
            r.spec_success() == 0,
            r.spec_failure() == 0,
            r.spec_start() is None,
            r.spec_end() is None,
    {
        QueryStats { requests: 0, success: 0, failure: 0, start: None, end: None }
    }

    /// The number of requests the query started.
    pub fn num_requests(&self) -> (r: u32)
        ensures
            r == self.spec_requests(),
    {
        self.requests
    }

    /// The number of requests that succeeded.
    pub fn num_successes(&self) -> (r: u32)
        ensures
            r == self.spec_success(),
    {
        self.success
    }

    /// The number of requests that failed.
    pub fn num_failures(&self) -> (r: u32)
        ensures
            r == self.spec_failure(),
    {
        self.failure
    }

    /// The number of requests still open; a query can finish with requests open.
    pub fn num_pending(&self) -> (r: u32)
        ensures
            r as int == if self.spec_requests() >= self.spec_success() + self.spec_failure() {
                self.spec_requests() - self.spec_success() - self.spec_failure()
            } else {
                0
            },
    {
        let settled: u64 = self.success as u64 + self.failure as u64;
        if (self.requests as u64) >= settled {
            (self.requests as u64 - settled) as u32
        } else {
            0
        }
    }

    /// How long the query ran: until its end, or until `now` where it has not ended; nothing
    /// where it has not started.
    pub fn duration_at(&self, now: u64) -> (r: Option<u64>)
        ensures
            match self.spec_start() {
                None => r is None,
                Some(s) => {
                    let e = match self.spec_end() {
                        Some(e) => e,
                        None => now,
                    };
                    r == Some(if e >= s {
                        (e - s) as u64
                    } else {
                        0
                    })
                },
            },
    {
        match self.start {
            Some(s) => {
                let e = match self.end {
                    Some(e) => e,
                    None => now,
                };
                Some(if e >= s { e - s } else { 0 })
            },
            None => None,
        }
    }

    /// How long the query ran, measured up to the current time where it has not ended.
    pub fn duration(&self) -> (r: Option<u64>)
        ensures
            r is Some <==> self.spec_start() is Some,
    {
        let now = now_millis();
        self.duration_at(now)
    }

    /// These statistics merged with those of another query: counters add up, the start is
    /// the earlier one and the end the later one.
    pub fn merge(self, other: QueryStats) -> (r: Self)
        ensures
            r.spec_requests() == sat_add(self.spec_requests(), other.spec_requests()),
            r.spec_success() == sat_add(self.spec_success(), other.spec_success()),
            r.spec_failure() == sat_add(self.spec_failure(), other.spec_failure()),
            r.spec_start() == earliest(self.spec_start(), other.spec_start()),
            r.spec_end() == latest(self.spec_end(), other.spec_end()),
    {
        let start = match (self.start, other.start) {
            (Some(a), Some(b)) => Some(if a <= b { a } else { b }),
            (Some(a), None) => Some(a),
            (None, b) => b,
        };
        let end = match (self.end, other.end) {
            (Some(a), Some(b)) => Some(if a >= b { a } else { b }),
            (Some(a), None) => Some(a),
            (None, b) => b,
        };
        QueryStats {
            requests: saturating_add_u32(self.requests, other.requests),
            success: saturating_add_u32(self.success, other.success),
            failure: saturating_add_u32(self.failure, other.failure),
            start,
            end,
        }
    }
}

/// The peer selection strategy of a query.
pub enum QueryPeerIter {
    Closest(ClosestPeersIter),
    ClosestDisjoint(ClosestDisjointPeersIter),
    Fixed(FixedPeersIter),
}

impl QueryPeerIter {
    pub open spec fn wf(&self) -> bool {
        match self {
            QueryPeerIter::Closest(it) => it.wf(),
            QueryPeerIter::ClosestDisjoint(it) => it.wf(),
            QueryPeerIter::Fixed(it) => it.wf(),
        }
    }

    /// The iterator takes an answer, or a failure, of `peer`: a request to it is open.
    pub open spec fn takes_answer_of(&self, peer: Seq<u8>) -> bool {
        match self {
            QueryPeerIter::Closest(it) => takes_answer(*it, peer),
            QueryPeerIter::ClosestDisjoint(it) => paths_take_answer(it.paths(), peer),
            QueryPeerIter::Fixed(it) => !it.spec_finished() && exists|i: int|
                0 <= i < it.spec_contacted().len() && #[trigger] it.spec_contacted()[i] == (
                    peer,
                    FixedPeerState::Waiting,
                ),
        }
    }

    pub open spec fn spec_finished(&self) -> bool {
        match self {
            QueryPeerIter::Closest(it) => it.spec_finished(),
            QueryPeerIter::ClosestDisjoint(it) => all_finished(it.paths()),
            QueryPeerIter::Fixed(it) => it.spec_finished(),
        }
    }
}

/// What one call of `next` at `now` does to a query's iterator: from `o` to `n`, answering `r`.
pub open spec fn iter_next(o: QueryPeerIter, n: QueryPeerIter, now: u64, r: PeersIterState) -> bool {
    match (o, n) {
        (QueryPeerIter::Closest(a), QueryPeerIter::Closest(b)) => closest_next(a, b, now, r),
        (QueryPeerIter::ClosestDisjoint(a), QueryPeerIter::ClosestDisjoint(b)) => disjoint_next(a, b, r),
        (QueryPeerIter::Fixed(a), QueryPeerIter::Fixed(b)) => fixed_next(a, b, r),
        _ => false,
    }
}

/// What an answer of `peer` naming `new_peers` does to a query's iterator.
pub open spec fn iter_on_success(
    o: QueryPeerIter,
    n: QueryPeerIter,
    peer: Seq<u8>,
    new_peers: Seq<Key>,
    r: bool,
) -> bool {
    match (o, n) {
        (QueryPeerIter::Closest(a), QueryPeerIter::Closest(b)) => closest_on_success(a, b, peer, new_peers, r),
        (QueryPeerIter::ClosestDisjoint(a), QueryPeerIter::ClosestDisjoint(b)) => disjoint_on_success(a, b, peer, r),
        (QueryPeerIter::Fixed(a), QueryPeerIter::Fixed(b)) => fixed_on_success(a, b, peer, r),
        _ => false,
    }
}

/// What a failed request to `peer` does to a query's iterator.
pub open spec fn iter_on_failure(o: QueryPeerIter, n: QueryPeerIter, peer: Seq<u8>, r: bool) -> bool {
    match (o, n) {
        (QueryPeerIter::Closest(a), QueryPeerIter::Closest(b)) => closest_on_failure(a, b, peer, r),
        (QueryPeerIter::ClosestDisjoint(a), QueryPeerIter::ClosestDisjoint(b)) => disjoint_on_failure(a, b, peer, r),
        (QueryPeerIter::Fixed(a), QueryPeerIter::Fixed(b)) => fixed_on_failure(a, b, peer, r),
        _ => false,
    }
}

/// The peers a query's iterator found.
pub open spec fn iter_result(it: QueryPeerIter) -> Seq<Seq<u8>> {
    match it {
        QueryPeerIter::Closest(c) => up_to_len(
            succeeded_peers(c.candidates()),
            c.spec_config().num_results as nat,
        ),
        QueryPeerIter::ClosestDisjoint(d) => path_results(d.paths()),
        QueryPeerIter::Fixed(f) => fixed_succeeded(f.spec_contacted()),
    }
}

/// Whether a graceful finish given `peers` succeeds: always, except on disjoint paths, where
/// every path must have settled with one of the peers.
pub open spec fn finish_granted(it: QueryPeerIter, peers: Seq<PeerId>) -> bool {
    match it {
        QueryPeerIter::ClosestDisjoint(d) => forall|p: int|
            0 <= p < d.paths().len() ==> settled_with_any(#[trigger] d.paths()[p], peers),
        _ => true,
    }
}

/// A query's iterator after a graceful finish that was refused: the same lookups as before.
pub open spec fn unchanged_lookup(o: QueryPeerIter, n: QueryPeerIter) -> bool {
    match (o, n) {
        (QueryPeerIter::ClosestDisjoint(a), QueryPeerIter::ClosestDisjoint(b)) => same_paths(b.paths(), a.paths()),
        _ => false,
    }
}

/// A query's iterator ended by `finish`: the same variant, now finished.
pub open spec fn iter_finished_from(o: QueryPeerIter, n: QueryPeerIter) -> bool {
    &&& n.spec_finished()
    &&& match (o, n) {
        (QueryPeerIter::Closest(a), QueryPeerIter::Closest(b)) => b.candidates() == a.candidates(),
        (QueryPeerIter::ClosestDisjoint(a), QueryPeerIter::ClosestDisjoint(b)) => b.paths().len() == a.paths().len(),
        (QueryPeerIter::Fixed(a), QueryPeerIter::Fixed(b)) => b.spec_contacted() == a.spec_contacted(),
        _ => false,
    }
}

/// A query: its identifier, the iterator that drives it, its statistics, and what it stands
/// for.
pub struct Query<TInfo> {
    id: QueryId,
    peer_iter: QueryPeerIter,
    stats: QueryStats,
    info: TInfo,
}

impl<TInfo> Query<TInfo> {
    pub closed spec fn spec_id(&self) -> QueryId {
        self.id
    }

    pub closed spec fn spec_stats(&self) -> QueryStats {
        self.stats
    }

    pub closed spec fn spec_iter(&self) -> QueryPeerIter {
        self.peer_iter
    }

    /// What the query stands for.
    pub closed spec fn spec_info(&self) -> TInfo {
        self.info
    }

    /// What the query stands for.
    pub fn info(&self) -> (r: &TInfo)
        ensures
            *r == self.spec_info(),
    {
        &self.info
    }

    pub open spec fn wf(&self) -> bool {
        self.spec_iter().wf()
    }

    fn new(id: QueryId, peer_iter: QueryPeerIter, info: TInfo) -> (r: Self)
        ensures
            r.spec_id() == id,
            r.spec_iter() == peer_iter,
            r.spec_stats().spec_requests() == 0,
            r.spec_stats().spec_success() == 0,
            r.spec_stats().spec_failure() == 0,
            r.spec_stats().spec_start() is None,
            r.spec_stats().spec_end() is None,
            r.spec_info() == info,
    {
        Query { id, peer_iter, stats: QueryStats::empty(), info }
    }

    /// The identifier of the query.
    pub fn id(&self) -> (r: QueryId)
        ensures
            r == self.spec_id(),
    {
        self.id
    }

    /// The statistics of the query.
    pub fn stats(&self) -> (r: &QueryStats)
        ensures
            *r == self.spec_stats(),
    {
        &self.stats
    }

    /// Records that the request to `peer` failed.
    pub fn on_failure(&mut self, peer: &PeerId)
        requires
            old(self).wf(),
        ensures
            final(self).wf(),
            final(self).spec_id() == old(self).spec_id(),
            final(self).spec_stats().spec_requests() == old(self).spec_stats().spec_requests(),
            final(self).spec_stats().spec_success() == old(self).spec_stats().spec_success(),
            final(self).spec_stats().spec_start() == old(self).spec_stats().spec_start(),
            final(self).spec_stats().spec_end() == old(self).spec_stats().spec_end(),
            final(self).spec_iter().spec_finished() == old(self).spec_iter().spec_finished(),
            final(self).spec_stats().spec_failure() == if old(self).spec_iter().takes_answer_of(peer@) {
                sat_add(old(self).spec_stats().spec_failure(), 1)
            } else {
                old(self).spec_stats().spec_failure()
            },
            final(self).spec_info() == old(self).spec_info(),
            iter_on_failure(
                old(self).spec_iter(),
                final(self).spec_iter(),
                peer@,
                old(self).spec_iter().takes_answer_of(peer@),
            ),
    {
        let updated = match &mut self.peer_iter {
            QueryPeerIter::Closest(it) => it.on_failure(peer),
            QueryPeerIter::ClosestDisjoint(it) => {
                let ghost before = it.paths();
                let r = it.on_failure(peer);
                proof {
                    lemma_all_finished_alike(it.paths(), before);
                }
                r
            },
            QueryPeerIter::Fixed(it) => it.on_failure(peer),
        };
        if updated {
            self.stats.failure = saturating_add_u32(self.stats.failure, 1);
        }
    }

    /// Records that `peer` answered, with the peers it named closer to the target.
    pub fn on_success(&mut self, peer: &PeerId, new_peers: Vec<Key>)
        requires
            old(self).wf(),
        ensures
            final(self).wf(),
            final(self).spec_id() == old(self).spec_id(),
            final(self).spec_stats().spec_requests() == old(self).spec_stats().spec_requests(),
            final(self).spec_stats().spec_failure() == old(self).spec_stats().spec_failure(),
            final(self).spec_stats().spec_start() == old(self).spec_stats().spec_start(),
            final(self).spec_stats().spec_end() == old(self).spec_stats().spec_end(),
            final(self).spec_iter().spec_finished() == old(self).spec_iter().spec_finished(),
            final(self).spec_stats().spec_success() == if old(self).spec_iter().takes_answer_of(peer@) {
                sat_add(old(self).spec_stats().spec_success(), 1)
            } else {
                old(self).spec_stats().spec_success()
            },
            final(self).spec_info() == old(self).spec_info(),
            iter_on_success(
                old(self).spec_iter(),
                final(self).spec_iter(),
                peer@,
                new_peers@,
                old(self).spec_iter().takes_answer_of(peer@),
            ),
    {
        let updated = match &mut self.peer_iter {
            QueryPeerIter::Closest(it) => it.on_success(peer, new_peers),
            QueryPeerIter::ClosestDisjoint(it) => {
                let ghost before = it.paths();
                let r = it.on_success(peer, new_peers);
                proof {
                    lemma_all_finished_alike(it.paths(), before);
                }
                r
            },
            QueryPeerIter::Fixed(it) => it.on_success(peer),
        };
        if updated {
            self.stats.success = saturating_add_u32(self.stats.success, 1);
        }
    }

    /// Advances the iterator of the query at `now`, counting a request it starts.
    fn next(&mut self, now: u64) -> (r: PeersIterState)
        requires
            old(self).wf(),
        ensures
            final(self).wf(),
            final(self).spec_id() == old(self).spec_id(),
            final(self).spec_info() == old(self).spec_info(),
            final(self).spec_stats().spec_requests() == if r matches PeersIterState::Waiting(Some(_)) {
                sat_add(old(self).spec_stats().spec_requests(), 1)
            } else {
                old(self).spec_stats().spec_requests()
            },
            final(self).spec_stats().spec_success() == old(self).spec_stats().spec_success(),
            final(self).spec_stats().spec_failure() == old(self).spec_stats().spec_failure(),
            final(self).spec_stats().spec_start() == old(self).spec_stats().spec_start(),
            final(self).spec_stats().spec_end() == old(self).spec_stats().spec_end(),
            r is Finished ==> final(self).spec_iter().spec_finished(),
            old(self).spec_iter().spec_finished() ==> r is Finished,
            iter_next(old(self).spec_iter(), final(self).spec_iter(), now, r),
    {
        let state = match &mut self.peer_iter {
            QueryPeerIter::Closest(it) => it.next(now),
            QueryPeerIter::ClosestDisjoint(it) => it.next(now),
            QueryPeerIter::Fixed(it) => it.next(),
        };
        if let PeersIterState::Waiting(Some(_)) = &state {
            self.stats.requests = saturating_add_u32(self.stats.requests, 1);
        }
        state
    }

    /// Tries to finish the query gracefully, given the peers that satisfy its termination
    /// condition. Returns whether it finished.
    pub fn try_finish(&mut self, peers: &Vec<PeerId>) -> (r: bool)
        requires
            old(self).wf(),
        ensures
            final(self).wf(),
            final(self).spec_id() == old(self).spec_id(),
            final(self).spec_stats() == old(self).spec_stats(),
            final(self).spec_info() == old(self).spec_info(),
            r == finish_granted(old(self).spec_iter(), peers@),
            r ==> final(self).spec_iter().spec_finished(),
            !r ==> unchanged_lookup(old(self).spec_iter(), final(self).spec_iter()),
    {
        match &mut self.peer_iter {
            QueryPeerIter::Closest(it) => {
                it.finish();
                true
            },
            QueryPeerIter::ClosestDisjoint(it) => it.finish_paths(peers),
            QueryPeerIter::Fixed(it) => {
                it.finish();
                true
            },
        }
    }

    /// Finishes the query.
    pub fn finish(&mut self)
        requires
            old(self).wf(),
        ensures
            final(self).wf(),
            final(self).spec_id() == old(self).spec_id(),
            final(self).spec_stats() == old(self).spec_stats(),
            final(self).spec_info() == old(self).spec_info(),
            final(self).spec_iter().spec_finished(),
            iter_finished_from(old(self).spec_iter(), final(self).spec_iter()),
    {
        match &mut self.peer_iter {
            QueryPeerIter::Closest(it) => it.finish(),
            QueryPeerIter::ClosestDisjoint(it) => it.finish(),
            QueryPeerIter::Fixed(it) => it.finish(),
        }
    }

    /// Whether the query has finished.
    pub fn is_finished(&self) -> (r: bool)
        ensures
            r == self.spec_iter().spec_finished(),
    {
        match &self.peer_iter {
            QueryPeerIter::Closest(it) => it.is_finished(),
            QueryPeerIter::ClosestDisjoint(it) => it.is_finished(),
            QueryPeerIter::Fixed(it) => it.is_finished(),
        }
    }

    /// The peers the query found, consuming it.
    pub fn into_result(self) -> (r: Vec<PeerId>)
        ensures
            r@.map_values(|p: PeerId| p@) == iter_result(self.spec_iter()),
    {
        match self.peer_iter {
            QueryPeerIter::Closest(it) => it.into_result(),
            QueryPeerIter::ClosestDisjoint(it) => it.into_result(),
            QueryPeerIter::Fixed(it) => it.into_result(),
        }
    }
}

/// What a poll of the pool yields.
pub enum QueryPoolState<TInfo> {
    /// There are no queries.
    Idle,
    /// The queries wait for results; with a query and a peer, that peer is to be contacted
    /// for that query now.
    Waiting(Option<(QueryId, PeerId)>),
    /// A query finished; it has left the pool.
    Finished(Query<TInfo>),
    /// A query timed out; it has left the pool.
    Timeout(Query<TInfo>),
}

/// A pool of queries, driven to completion by polls.
pub struct QueryPool<TInfo> {
    next_id: usize,
    config: QueryConfig,
    queries: Vec<Query<TInfo>>,
}

/// The identifiers of a sequence of queries.
pub open spec fn ids_of<TInfo>(qs: Seq<Query<TInfo>>) -> Seq<QueryId> {
    qs.map_values(|q: Query<TInfo>| q.spec_id())
}

/// The time from `start` to `now`, or none where `now` is earlier.
pub open spec fn elapsed(start: u64, now: u64) -> u64 {
    if now >= start {
        (now - start) as u64
    } else {
        0
    }
}

/// When a query started: its recorded start, or `now` for one not started yet.
pub open spec fn started_at(start: Option<u64>, now: u64) -> u64 {
    match start {
        Some(t) => t,
        None => now,
    }
}

/// Query `n` is query `o` advanced once at `now`: started, its iterator moved by `next`
/// answering `s`, a request counted where `s` names a peer, and its end set to `end`.
pub open spec fn stepped<TInfo>(
    o: Query<TInfo>,
    n: Query<TInfo>,
    now: u64,
    s: PeersIterState,
    end: Option<u64>,
) -> bool {
    &&& n.wf()
    &&& n.spec_id() == o.spec_id()
    &&& n.spec_info() == o.spec_info()
    &&& n.spec_stats().spec_start() == Some(started_at(o.spec_stats().spec_start(), now))
    &&& n.spec_stats().spec_requests() == if s matches PeersIterState::Waiting(Some(_)) {
        sat_add(o.spec_stats().spec_requests(), 1)
    } else {
        o.spec_stats().spec_requests()
    }
    &&& n.spec_stats().spec_success() == o.spec_stats().spec_success()
    &&& n.spec_stats().spec_failure() == o.spec_stats().spec_failure()
    &&& n.spec_stats().spec_end() == end
    &&& iter_next(o.spec_iter(), n.spec_iter(), now, s)
}

/// The iterator answered `s` without a peer to contact and without finishing.
pub open spec fn idle_answer(s: PeersIterState) -> bool {
    s matches PeersIterState::Waiting(None) || s is WaitingAtCapacity
}

/// Query `o`, advanced at `now`, became `n`: it had no peer to contact, had not finished, and
/// had not run out of time.
pub open spec fn idle_step<TInfo>(o: Query<TInfo>, n: Query<TInfo>, now: u64, timeout: u64) -> bool {
    exists|s: PeersIterState|
        #[trigger] stepped(o, n, now, s, o.spec_stats().spec_end()) && idle_answer(s) && elapsed(
            started_at(o.spec_stats().spec_start(), now),
            now,
        ) < timeout
}

/// Query `n` is query `o` after an answer of `peer` naming `new_peers`.
pub open spec fn fed_success<TInfo>(o: Query<TInfo>, n: Query<TInfo>, peer: Seq<u8>, new_peers: Seq<Key>) -> bool {
    let taken = o.spec_iter().takes_answer_of(peer);
    &&& n.wf()
    &&& n.spec_id() == o.spec_id()
    &&& n.spec_info() == o.spec_info()
    &&& n.spec_stats().spec_requests() == o.spec_stats().spec_requests()
    &&& n.spec_stats().spec_failure() == o.spec_stats().spec_failure()
    &&& n.spec_stats().spec_start() == o.spec_stats().spec_start()
    &&& n.spec_stats().spec_end() == o.spec_stats().spec_end()
    &&& n.spec_stats().spec_success() == if taken {
        sat_add(o.spec_stats().spec_success(), 1)
    } else {
        o.spec_stats().spec_success()
    }
    &&& iter_on_success(o.spec_iter(), n.spec_iter(), peer, new_peers, taken)
}

/// Query `n` is query `o` after the request to `peer` failed.
pub open spec fn fed_failure<TInfo>(o: Query<TInfo>, n: Query<TInfo>, peer: Seq<u8>) -> bool {
    let taken = o.spec_iter().takes_answer_of(peer);
    &&& n.wf()
    &&& n.spec_id() == o.spec_id()
    &&& n.spec_info() == o.spec_info()
    &&& n.spec_stats().spec_requests() == o.spec_stats().spec_requests()
    &&& n.spec_stats().spec_success() == o.spec_stats().spec_success()
    &&& n.spec_stats().spec_start() == o.spec_stats().spec_start()
    &&& n.spec_stats().spec_end() == o.spec_stats().spec_end()
    &&& n.spec_stats().spec_failure() == if taken {
        sat_add(o.spec_stats().spec_failure(), 1)
    } else {
        o.spec_stats().spec_failure()
    }
    &&& iter_on_failure(o.spec_iter(), n.spec_iter(), peer, taken)
}

/// Query `n` is query `o` ended by `finish`.
pub open spec fn ended<TInfo>(o: Query<TInfo>, n: Query<TInfo>) -> bool {
    &&& n.wf()
    &&& n.spec_id() == o.spec_id()
    &&& n.spec_info() == o.spec_info()
    &&& n.spec_stats() == o.spec_stats()
    &&& iter_finished_from(o.spec_iter(), n.spec_iter())
}

/// Query `n` is query `o` after a graceful finish given `peers` was tried, answering `r`.
pub open spec fn finish_tried<TInfo>(o: Query<TInfo>, n: Query<TInfo>, peers: Seq<PeerId>, r: bool) -> bool {
    &&& n.wf()
    &&& n.spec_id() == o.spec_id()
    &&& n.spec_info() == o.spec_info()
    &&& n.spec_stats() == o.spec_stats()
    &&& r == finish_granted(o.spec_iter(), peers)
    &&& r ==> n.spec_iter().spec_finished()
    &&& !r ==> unchanged_lookup(o.spec_iter(), n.spec_iter())
}

/// Statistics of a query that has not started.
pub open spec fn fresh_stats(st: QueryStats) -> bool {
    &&& st.spec_requests() == 0
    &&& st.spec_success() == 0
    &&& st.spec_failure() == 0
    &&& st.spec_start() is None
    &&& st.spec_end() is None
}

/// A new query under `id` standing for `info` that contacts `peers`, `parallelism` at a time.
pub open spec fn fresh_fixed<TInfo>(q: Query<TInfo>, id: QueryId, info: TInfo, peers: Seq<Seq<u8>>, parallelism: usize) -> bool {
    &&& q.wf()
    &&& q.spec_id() == id
    &&& q.spec_info() == info
    &&& fresh_stats(q.spec_stats())
    &&& match q.spec_iter() {
        QueryPeerIter::Fixed(f) => {
            &&& f.spec_peers() == peers
            &&& f.spec_parallelism() == parallelism
            &&& f.spec_cursor() == 0
            &&& f.spec_contacted().len() == 0
            &&& !f.spec_finished()
        },
        _ => false,
    }
}

/// A new query under `id` standing for `info` that looks for the peers closest to `target`
/// with `cfg`, over disjoint paths where `disjoint`, seeded with the first known `seeds`.
pub open spec fn fresh_closest<TInfo>(
    q: Query<TInfo>,
    id: QueryId,
    info: TInfo,
    cfg: ClosestPeersIterConfig,
    target: Seq<u8>,
    seeds: Seq<Key>,
    disjoint: bool,
) -> bool {
    &&& q.wf()
    &&& q.spec_id() == id
    &&& q.spec_info() == info
    &&& fresh_stats(q.spec_stats())
    &&& if disjoint {
        match q.spec_iter() {
            QueryPeerIter::ClosestDisjoint(d) => {
                &&& d.spec_config() == cfg
                &&& d.spec_target() == target
                &&& d.paths().len() == cfg.parallelism
                &&& forall|p: int| 0 <= p < d.paths().len() ==> !(#[trigger] d.paths()[p]).spec_finished()
            },
            _ => false,
        }
    } else {
        match q.spec_iter() {
            QueryPeerIter::Closest(c) => {
                &&& c.spec_config() == cfg
                &&& c.spec_target() == target
                &&& !c.spec_finished()
                &&& c.candidates() == added_all(
                    Seq::empty(),
                    candidates_of(
                        if seeds.len() > K_VALUE {
                            seeds.take(K_VALUE as int)
                        } else {
                            seeds
                        }.map_values(|k: Key| k@),
                        target,
                    ),
                )
            },
            _ => false,
        }
    }
}

/// The identifier after `n`, wrapping around.
pub open spec fn after_id(n: usize) -> usize {
    if n < usize::MAX {
        (n + 1) as usize
    } else {
        0
    }
}

impl<TInfo> QueryPool<TInfo> {
    /// The queries in the pool, in pool order.
    pub closed spec fn queries(&self) -> Seq<Query<TInfo>> {
        self.queries@
    }

    /// The identifiers of the queries in the pool.
    pub open spec fn ids(&self) -> Seq<QueryId> {
        ids_of(self.queries())
    }

    pub closed spec fn spec_config(&self) -> QueryConfig {
        self.config
    }

    /// The identifier the next added query gets.
    pub closed spec fn spec_next_id(&self) -> QueryId {
        QueryId(self.next_id)
    }

    /// The invariant: a usable configuration, well-formed queries, unique identifiers.
    pub closed spec fn wf(&self) -> bool {
        &&& self.config.parallelism > 0
        &&& self.config.replication_factor > 0
        &&& forall|i: int| 0 <= i < self.queries@.len() ==> #[trigger] self.queries@[i].wf()
        &&& forall|i: int, j: int|
            0 <= i < j < self.queries@.len() ==> #[trigger] self.queries@[i].spec_id()
                != #[trigger] self.queries@[j].spec_id()
    }

    /// An empty pool.
    pub fn new(config: QueryConfig) -> (r: Self)
        requires
            config.parallelism > 0,
            config.replication_factor > 0,
        ensures
            r.wf(),
            r.ids().len() == 0,
            r.spec_config() == config,
            r.spec_next_id().spec_value() == 0,
    {
        let r = QueryPool { next_id: 0, config, queries: Vec::new() };
        assert(r.ids() =~= Seq::<QueryId>::empty());
        r
    }

    /// The configuration of the pool.
    pub fn config(&self) -> (r: &QueryConfig)
        ensures
            *r == self.spec_config(),
    {
        &self.config
    }

    /// The queries in the pool.
    pub fn iter(&self) -> (r: &Vec<Query<TInfo>>)
        ensures
            ids_of(r@) == self.ids(),
    {
        &self.queries
    }

    /// The number of queries in the pool.
    pub fn size(&self) -> (r: usize)
        ensures
            r == self.ids().len(),
    {
        self.queries.len()
    }

    fn next_query_id(&mut self) -> (r: QueryId)
        ensures
            r == old(self).spec_next_id(),
            final(self).spec_next_id().spec_value() == if old(self).spec_next_id().spec_value() < usize::MAX {
                (old(self).spec_next_id().spec_value() + 1) as usize
            } else {
                0
            },
            final(self).queries == old(self).queries,
            final(self).config == old(self).config,
    {
        let id = QueryId(self.next_id);
        self.next_id = if self.next_id < usize::MAX {
            self.next_id + 1
        } else {
            0
        };
        id
    }

    fn position(&self, id: QueryId) -> (r: Option<usize>)
        ensures
            match r {
                Some(i) => i < self.ids().len() && self.ids()[i as int] == id,
                None => !self.ids().contains(id),
            },
    {
        let mut i: usize = 0;
        while i < self.queries.len()
            invariant
                i <= self.queries@.len(),
                forall|j: int| 0 <= j < i ==> #[trigger] self.queries@[j].spec_id() != id,
            decreases self.queries.len() - i,
        {
            if self.queries[i].id() == id {
                return Some(i);
            }
            i = i + 1;
        }
        proof {
            if self.ids().contains(id) {
                let j = choose|j: int| 0 <= j < self.ids().len() && self.ids()[j] == id;
                assert(self.queries@[j].spec_id() == id);
            }
        }
        None
    }

    fn insert_query(&mut self, query: Query<TInfo>)
        requires
            old(self).wf(),
            query.wf(),
            !old(self).ids().contains(query.spec_id()),
        ensures
            final(self).wf(),
            final(self).ids() == old(self).ids().push(query.spec_id()),
            final(self).config == old(self).config,
            final(self).next_id == old(self).next_id,
            final(self).queries() == old(self).queries().push(query),
    {
        let ghost before = self.queries@;
        let ghost qid = query.spec_id();
        self.queries.push(query);
        proof {
            assert(self.ids() =~= ids_of(before).push(qid));
            assert forall|i: int, j: int|
                0 <= i < j < self.queries@.len() implies #[trigger] self.queries@[i].spec_id()
                != #[trigger] self.queries@[j].spec_id() by {
                if j == before.len() {
                    assert(ids_of(before)[i] == self.queries@[i].spec_id());
                }
            }
        }
    }

    /// Starts a query that contacts a fixed set of peers.
    pub fn add_fixed(&mut self, peers: Vec<PeerId>, info: TInfo) -> (r: QueryId)
        requires
            old(self).wf(),
            !old(self).ids().contains(old(self).spec_next_id()),
        ensures
            final(self).wf(),
            r == old(self).spec_next_id(),
            final(self).ids() == old(self).ids().push(r),
            final(self).spec_config() == old(self).spec_config(),
            final(self).spec_next_id().spec_value() == after_id(old(self).spec_next_id().spec_value()),
            final(self).queries().len() == old(self).queries().len() + 1,
            final(self).queries().drop_last() == old(self).queries(),
            fresh_fixed(
                final(self).queries().last(),
                r,
                info,
                peers@.map_values(|p: PeerId| p@),
                old(self).spec_config().replication_factor,
            ),
    {
        let id = self.next_query_id();
        self.continue_fixed(id, peers, info);
        id
    }

    /// Continues an earlier query under its identifier, which no query in the pool has, with
    /// a fixed set of peers.
    pub fn continue_fixed(&mut self, id: QueryId, peers: Vec<PeerId>, info: TInfo)
        requires
            old(self).wf(),
            !old(self).ids().contains(id),
        ensures
            final(self).wf(),
            final(self).ids() == old(self).ids().push(id),
            final(self).spec_config() == old(self).spec_config(),
            final(self).spec_next_id() == old(self).spec_next_id(),
            final(self).queries().len() == old(self).queries().len() + 1,
            final(self).queries().drop_last() == old(self).queries(),
            fresh_fixed(
                final(self).queries().last(),
                id,
                info,
                peers@.map_values(|p: PeerId| p@),
                old(self).spec_config().replication_factor,
            ),
    {
        let parallelism = self.config.replication_factor;
        let peer_iter = QueryPeerIter::Fixed(FixedPeersIter::new(peers, parallelism));
        let query = Query::new(id, peer_iter, info);
        self.insert_query(query);
    }

    /// Starts a query that iterates towards the closest peers to `target`, from the known
    /// `peers`. It aims for `num_results` peers, or for the replication factor where that is
    /// not given.
    pub fn add_iter_closest(
        &mut self,
        target: [u8; 32],
        peers: Vec<Key>,
        info: TInfo,
        num_results: Option<usize>,
    ) -> (r: QueryId)
        requires
            old(self).wf(),
            !old(self).ids().contains(old(self).spec_next_id()),
            num_results matches Some(n) ==> n > 0,
        ensures
            final(self).wf(),
            r == old(self).spec_next_id(),
            final(self).ids() == old(self).ids().push(r),
            final(self).spec_config() == old(self).spec_config(),
            final(self).spec_next_id().spec_value() == after_id(old(self).spec_next_id().spec_value()),
            final(self).queries().len() == old(self).queries().len() + 1,
            final(self).queries().drop_last() == old(self).queries(),
            fresh_closest(
                final(self).queries().last(),
                r,
                info,
                (ClosestPeersIterConfig {
                    parallelism: old(self).spec_config().parallelism,
                    num_results: match num_results {
                        Some(n) => n,
                        None => old(self).spec_config().replication_factor,
                    },
                    peer_timeout: REQUEST_TIMEOUT_MS,
                }),
                target@,
                peers@,
                old(self).spec_config().disjoint_query_paths,
            ),
    {
        let id = self.next_query_id();
        self.continue_iter_closest(id, target, peers, info, num_results);
        id
    }

    /// Continues an earlier query under its identifier, which no query in the pool has,
    /// iterating towards the closest peers to `target`.
    pub fn continue_iter_closest(
        &mut self,
        id: QueryId,
        target: [u8; 32],
        peers: Vec<Key>,
        info: TInfo,
        num_results: Option<usize>,
    )
        requires
            old(self).wf(),
            !old(self).ids().contains(id),
            num_results matches Some(n) ==> n > 0,
        ensures
            final(self).wf(),
            final(self).ids() == old(self).ids().push(id),
            final(self).spec_config() == old(self).spec_config(),
            final(self).spec_next_id() == old(self).spec_next_id(),
            final(self).queries().len() == old(self).queries().len() + 1,
            final(self).queries().drop_last() == old(self).queries(),
            fresh_closest(
                final(self).queries().last(),
                id,
                info,
                (ClosestPeersIterConfig {
                    parallelism: old(self).spec_config().parallelism,
                    num_results: match num_results {
                        Some(n) => n,
                        None => old(self).spec_config().replication_factor,
                    },
                    peer_timeout: REQUEST_TIMEOUT_MS,
                }),
                target@,
                peers@,
                old(self).spec_config().disjoint_query_paths,
            ),
    {
        let num_results = match num_results {
            Some(n) => n,
            None => self.config.replication_factor,
        };
        let cfg = ClosestPeersIterConfig::new(self.config.parallelism, num_results, REQUEST_TIMEOUT_MS);
        let peer_iter = if self.config.disjoint_query_paths {
            QueryPeerIter::ClosestDisjoint(ClosestDisjointPeersIter::with_config(cfg, target, peers))
        } else {
            QueryPeerIter::Closest(ClosestPeersIter::with_config(cfg, target, peers))
        };
        let query = Query::new(id, peer_iter, info);
        self.insert_query(query);
    }

    /// The query with identifier `id`, if it is in the pool.
    pub fn get(&self, id: &QueryId) -> (r: Option<&Query<TInfo>>)
        ensures
            match r {
                Some(q) => q.spec_id() == *id && self.ids().contains(*id),
                None => !self.ids().contains(*id),
            },
    {
        match self.position(*id) {
            Some(i) => Some(&self.queries[i]),
            None => None,
        }
    }

    /// Takes the query at `i` out to work on it.
    fn take(&mut self, i: usize) -> (r: Query<TInfo>)
        requires
            old(self).wf(),
            i < old(self).ids().len(),
        ensures
            r == old(self).queries@[i as int],
            r.wf(),
            final(self).queries@ == old(self).queries@.remove(i as int),
            final(self).config == old(self).config,
            final(self).next_id == old(self).next_id,
    {
        let q = self.queries.remove(i);
        q
    }

    /// Puts a query back where it was taken from.
    fn put_back(&mut self, i: usize, q: Query<TInfo>, Ghost(taken): Ghost<Query<TInfo>>, Ghost(before): Ghost<Seq<Query<TInfo>>>)
        requires
            i < before.len(),
            before[i as int] == taken,
            old(self).queries@ == before.remove(i as int),
            q.wf(),
            q.spec_id() == taken.spec_id(),
            forall|j: int| 0 <= j < before.len() ==> #[trigger] before[j].wf(),
            forall|a: int, b: int|
                0 <= a < b < before.len() ==> #[trigger] before[a].spec_id() != #[trigger] before[b].spec_id(),
            old(self).config.parallelism > 0,
            old(self).config.replication_factor > 0,
        ensures
            final(self).wf(),
            final(self).queries@ == before.update(i as int, q),
            final(self).ids() == ids_of(before),
            final(self).config == old(self).config,
            final(self).next_id == old(self).next_id,
    {
        self.queries.insert(i, q);
        proof {
            assert(self.queries@ =~= before.update(i as int, q));
            assert(self.ids() =~= ids_of(before));
            assert forall|j: int| 0 <= j < self.queries@.len() implies #[trigger] self.queries@[j].wf() by {
                if j != i {
                    assert(self.queries@[j] == before[j]);
                }
            }
            assert forall|a: int, b: int|
                0 <= a < b < self.queries@.len() implies #[trigger] self.queries@[a].spec_id()
                != #[trigger] self.queries@[b].spec_id() by {
                assert(self.queries@[a].spec_id() == ids_of(before)[a]);
                assert(self.queries@[b].spec_id() == ids_of(before)[b]);
            }
        }
    }

    /// Records that the request of query `id` to `peer` succeeded, with the peers it named;
    /// nothing happens for a query that is not in the pool.
    pub fn on_success(&mut self, id: QueryId, peer: &PeerId, new_peers: Vec<Key>)
        requires
            old(self).wf(),
        ensures
            final(self).wf(),
            final(self).ids() == old(self).ids(),
            final(self).spec_config() == old(self).spec_config(),
            final(self).spec_next_id() == old(self).spec_next_id(),
            old(self).ids().contains(id) ==> exists|i: int| #![trigger old(self).queries()[i]]
                0 <= i < old(self).queries().len() && old(self).queries()[i].spec_id() == id
                    && final(self).queries() == old(self).queries().update(i, final(self).queries()[i])
                    && fed_success(old(self).queries()[i], final(self).queries()[i], peer@, new_peers@),
            !old(self).ids().contains(id) ==> final(self).queries() == old(self).queries(),
    {
        if let Some(i) = self.position(id) {
            let ghost before = self.queries@;
            let mut q = self.take(i);
            let ghost taken = q;
            q.on_success(peer, new_peers);
            self.put_back(i, q, Ghost(taken), Ghost(before));
        }
    }

    /// Records that the request of query `id` to `peer` failed; nothing happens for a query
    /// that is not in the pool.
    pub fn on_failure(&mut self, id: QueryId, peer: &PeerId)
        requires
            old(self).wf(),
        ensures
            final(self).wf(),
            final(self).ids() == old(self).ids(),
            final(self).spec_config() == old(self).spec_config(),
            final(self).spec_next_id() == old(self).spec_next_id(),
            old(self).ids().contains(id) ==> exists|i: int| #![trigger old(self).queries()[i]]
                0 <= i < old(self).queries().len() && old(self).queries()[i].spec_id() == id
                    && final(self).queries() == old(self).queries().update(i, final(self).queries()[i])
                    && fed_failure(old(self).queries()[i], final(self).queries()[i], peer@),
            !old(self).ids().contains(id) ==> final(self).queries() == old(self).queries(),
    {
        if let Some(i) = self.position(id) {
            let ghost before = self.queries@;
            let mut q = self.take(i);
            let ghost taken = q;
            q.on_failure(peer);
            self.put_back(i, q, Ghost(taken), Ghost(before));
        }
    }

    /// Finishes query `id`; it is reported by the next polls. Returns whether it is in the
    /// pool.
    pub fn finish(&mut self, id: QueryId) -> (r: bool)
        requires
            old(self).wf(),
        ensures
            final(self).wf(),
            final(self).ids() == old(self).ids(),
            r == old(self).ids().contains(id),
            final(self).spec_config() == old(self).spec_config(),
            final(self).spec_next_id() == old(self).spec_next_id(),
            old(self).ids().contains(id) ==> exists|i: int| #![trigger old(self).queries()[i]]
                0 <= i < old(self).queries().len() && old(self).queries()[i].spec_id() == id
                    && final(self).queries() == old(self).queries().update(i, final(self).queries()[i])
                    && ended(old(self).queries()[i], final(self).queries()[i]),
            !old(self).ids().contains(id) ==> final(self).queries() == old(self).queries(),
    {
        match self.position(id) {
            Some(i) => {
                let ghost before = self.queries@;
                let mut q = self.take(i);
                let ghost taken = q;
                q.finish();
                self.put_back(i, q, Ghost(taken), Ghost(before));
                true
            },
            None => false,
        }
    }

    /// Tries to finish query `id` gracefully, given the peers that satisfy its termination
    /// condition. Returns whether it finished; false for a query not in the pool.
    pub fn try_finish(&mut self, id: QueryId, peers: &Vec<PeerId>) -> (r: bool)
        requires
            old(self).wf(),
        ensures
            final(self).wf(),
            final(self).ids() == old(self).ids(),
            r ==> old(self).ids().contains(id),
            final(self).spec_config() == old(self).spec_config(),
            final(self).spec_next_id() == old(self).spec_next_id(),
            old(self).ids().contains(id) ==> exists|i: int| #![trigger old(self).queries()[i]]
                0 <= i < old(self).queries().len() && old(self).queries()[i].spec_id() == id
                    && final(self).queries() == old(self).queries().update(i, final(self).queries()[i])
                    && finish_tried(old(self).queries()[i], final(self).queries()[i], peers@, r),
            !old(self).ids().contains(id) ==> final(self).queries() == old(self).queries(),
            !old(self).ids().contains(id) ==> !r,
    {
        match self.position(id) {
            Some(i) => {
                let ghost before = self.queries@;
                let mut q = self.take(i);
                let ghost taken = q;
                let done = q.try_finish(peers);
                self.put_back(i, q, Ghost(taken), Ghost(before));
                done
            },
            None => false,
        }
    }

    /// Advances the queries at `now` (milliseconds), in pool order, until one yields an
    /// effect: a peer to contact, a finished query, or a query whose time ran out while it
    /// could make no request.
    pub fn poll(&mut self, now: u64) -> (r: QueryPoolState<TInfo>)
        requires
            old(self).wf(),
        ensures
            final(self).wf(),
            final(self).spec_config() == old(self).spec_config(),
            final(self).spec_next_id() == old(self).spec_next_id(),
            match r {
                QueryPoolState::Idle => old(self).ids().len() == 0 && final(self).ids() == old(self).ids(),
                QueryPoolState::Waiting(None) => old(self).ids().len() > 0 && final(self).ids() == old(self).ids(),
                QueryPoolState::Waiting(Some((id, _))) => old(self).ids().contains(id) && final(self).ids() == old(self).ids(),
                QueryPoolState::Finished(q) => exists|i: int|
                    0 <= i < old(self).ids().len() && old(self).ids()[i] == q.spec_id() && final(self).ids()
                        == old(self).ids().remove(i) && q.spec_iter().spec_finished()
                        && q.spec_stats().spec_end() == Some(now),
                QueryPoolState::Timeout(q) => exists|i: int|
                    0 <= i < old(self).ids().len() && old(self).ids()[i] == q.spec_id() && final(self).ids()
                        == old(self).ids().remove(i) && q.spec_stats().spec_end() == Some(now)
                        && (q.spec_stats().spec_start() matches Some(s) && elapsed(s, now) >= old(self).spec_config().timeout),
            },
            ({
                let q0 = old(self).queries();
                let q1 = final(self).queries();
                let t = old(self).spec_config().timeout;
                match r {
                    QueryPoolState::Idle => q0.len() == 0 && q1 == q0,
                    QueryPoolState::Waiting(None) => q1.len() == q0.len() && forall|j: int|
                        0 <= j < q0.len() ==> idle_step(#[trigger] q0[j], q1[j], now, t),
                    QueryPoolState::Waiting(Some((id, p))) => exists|i: int| #![trigger q0[i]]
                        0 <= i < q0.len() && q0[i].spec_id() == id && q1.len() == q0.len()
                            && (forall|j: int| 0 <= j < i ==> idle_step(#[trigger] q0[j], q1[j], now, t))
                            && (forall|j: int| i < j < q0.len() ==> #[trigger] q1[j] == q0[j])
                            && stepped(q0[i], q1[i], now, PeersIterState::Waiting(Some(p)), q0[i].spec_stats().spec_end()),
                    QueryPoolState::Finished(q) => exists|i: int| #![trigger q0[i]]
                        0 <= i < q0.len() && q1.len() == q0.len() - 1
                            && (forall|j: int| 0 <= j < i ==> idle_step(#[trigger] q0[j], q1[j], now, t))
                            && (forall|j: int| i < j < q0.len() ==> #[trigger] q1[j - 1] == q0[j])
                            && stepped(q0[i], q, now, PeersIterState::Finished, Some(now)),
                    QueryPoolState::Timeout(q) => exists|i: int| #![trigger q0[i]]
                        0 <= i < q0.len() && q1.len() == q0.len() - 1
                            && (forall|j: int| 0 <= j < i ==> idle_step(#[trigger] q0[j], q1[j], now, t))
                            && (forall|j: int| i < j < q0.len() ==> #[trigger] q1[j - 1] == q0[j])
                            && exists|s: PeersIterState| #[trigger] stepped(q0[i], q, now, s, Some(now)) && idle_answer(s)
                            && elapsed(started_at(q0[i].spec_stats().spec_start(), now), now) >= t,
                }
            }),
    {
        let ghost ids0 = self.ids();
        let mut i: usize = 0;
        while i < self.queries.len()
            invariant
                i <= self.queries@.len(),
                self.wf(),
                self.ids() == ids0,
                ids0 == old(self).ids(),
                self.config == old(self).config,
                self.next_id == old(self).next_id,
                self.queries@.len() == old(self).queries@.len(),
                forall|j: int| 0 <= j < i ==> idle_step(#[trigger] old(self).queries@[j], self.queries@[j], now, self.config.timeout),
                forall|j: int| i <= j < self.queries@.len() ==> #[trigger] self.queries@[j] == old(self).queries@[j],
            decreases self.queries.len() - i,
        {
            let ghost before = self.queries@;
            let mut q = self.take(i);
            let ghost taken = q;
            let start = match q.stats.start {
                Some(s) => s,
                None => now,
            };
            q.stats.start = Some(start);
            let state = q.next(now);
            let ghost st = state;
            assert(stepped(taken, q, now, st, taken.spec_stats().spec_end()));
            match state {
                PeersIterState::Finished => {
                    q.stats.end = Some(now);
                    proof {
                        assert(self.ids() =~= ids0.remove(i as int));
                        assert(stepped(taken, q, now, PeersIterState::Finished, Some(now)));
                        assert forall|j: int| 0 <= j < i implies idle_step(#[trigger] old(self).queries@[j], self.queries@[j], now, self.config.timeout) by {
                            assert(self.queries@[j] == before[j]);
                        }
                        assert forall|j: int| i < j < old(self).queries@.len() implies #[trigger] self.queries@[j - 1] == old(self).queries@[j] by {
                            assert(self.queries@[j - 1] == before[j]);
                        }
                    }
                    return QueryPoolState::Finished(q);
                },
                PeersIterState::Waiting(Some(peer)) => {
                    let id = q.id;
                    let ghost after = q;
                    self.put_back(i, q, Ghost(taken), Ghost(before));
                    assert(ids0[i as int] == id);
                    proof {
                        assert(self.queries@[i as int] == after);
                        assert(st == PeersIterState::Waiting(Some(peer)));
                        assert forall|j: int| 0 <= j < i implies idle_step(#[trigger] old(self).queries@[j], self.queries@[j], now, self.config.timeout) by {
                            assert(self.queries@[j] == before[j]);
                        }
                        assert forall|j: int| i < j < old(self).queries@.len() implies #[trigger] self.queries@[j] == old(self).queries@[j] by {
                            assert(self.queries@[j] == before[j]);
                        }
                    }
                    return QueryPoolState::Waiting(Some((id, peer)));
                },
                _ => {
                    assert(idle_answer(st));
                    let waited = if now >= start { now - start } else { 0 };
                    if waited >= self.config.timeout {
                        q.stats.end = Some(now);
                        proof {
                            assert(self.ids() =~= ids0.remove(i as int));
                            assert(stepped(taken, q, now, st, Some(now)));
                            assert forall|j: int| 0 <= j < i implies idle_step(#[trigger] old(self).queries@[j], self.queries@[j], now, self.config.timeout) by {
                                assert(self.queries@[j] == before[j]);
                            }
                            assert forall|j: int| i < j < old(self).queries@.len() implies #[trigger] self.queries@[j - 1] == old(self).queries@[j] by {
                                assert(self.queries@[j - 1] == before[j]);
                            }
                        }
                        return QueryPoolState::Timeout(q);
                    }
                    let ghost after = q;
                    self.put_back(i, q, Ghost(taken), Ghost(before));
                    proof {
                        assert(self.queries@[i as int] == after);
                        assert(idle_step(taken, after, now, self.config.timeout));
                        assert forall|j: int| 0 <= j < i + 1 implies idle_step(#[trigger] old(self).queries@[j], self.queries@[j], now, self.config.timeout) by {
                            if j < i {
                                assert(self.queries@[j] == before[j]);
                            }
                        }
                        assert forall|j: int| i + 1 <= j < self.queries@.len() implies #[trigger] self.queries@[j] == old(self).queries@[j] by {
                            assert(self.queries@[j] == before[j]);
                        }
                    }
                },
            }
            i = i + 1;
        }
        if self.queries.len() == 0 {
            QueryPoolState::Idle
        } else {
            QueryPoolState::Waiting(None)
        }
    }
}

} // verus!
