//! The closest-peers iterator: drives one lookup towards a target, contacting peers in order
//! of their distance to it, a bounded number at a time.

use vstd::prelude::*;

use crate::kad::key::{
    closer, compare_distances, distance, distance_of, lemma_closer_asymmetric,
    lemma_closer_transitive, Key, KeyView,
};
use crate::peer::PeerId;

verus! {

/// The number of peers a lookup aims to find.
pub const K_VALUE: usize = 20;

/// The number of requests a lookup keeps in flight.
pub const ALPHA_VALUE: usize = 3;

/// How long a peer is waited for before it counts as unresponsive, in milliseconds.
pub const PEER_TIMEOUT_MS: u64 = 10000;

/// The state of a peer in a lookup.
#[derive(Debug, Clone, Copy, PartialEq, Eq, Structural)]
pub enum PeerState {
    /// Not contacted yet.
    NotContacted,
    /// A request is in flight; it times out at the given instant, in milliseconds.
    Waiting(u64),
    /// The request timed out; a late answer still counts.
    Unresponsive,
    /// The request failed.
    Failed,
    /// The peer answered.
    Succeeded,
}

/// What a peer iterator asks of its host.
#[derive(Debug)]
pub enum PeersIterState {
    /// The iterator waits for answers; with a peer, that peer is to be contacted now.
    Waiting(Option<PeerId>),
    /// As many requests are in flight as allowed, and none can start.
    WaitingAtCapacity,
    /// The iterator is done.
    Finished,
}

/// The configuration of a closest-peers iterator.
#[derive(Debug, Clone, Copy)]
pub struct ClosestPeersIterConfig {
    /// How many requests are kept in flight at most.
    pub parallelism: usize,
    /// How many closest peers the lookup aims for.
    pub num_results: usize,
    /// How long a peer is waited for, in milliseconds.
    pub peer_timeout: u64,
}

impl ClosestPeersIterConfig {
    pub fn new(parallelism: usize, num_results: usize, peer_timeout: u64) -> (r: Self)
        ensures
            r.parallelism == parallelism,
            r.num_results == num_results,
            r.peer_timeout == peer_timeout,
    {
        ClosestPeersIterConfig { parallelism, num_results, peer_timeout }
    }
}

impl Default for ClosestPeersIterConfig {
    fn default() -> (r: Self)
        ensures
            r.parallelism == ALPHA_VALUE,
            r.num_results == K_VALUE,
            r.peer_timeout == PEER_TIMEOUT_MS,
    {
        ClosestPeersIterConfig {
            parallelism: ALPHA_VALUE,
            num_results: K_VALUE,
            peer_timeout: PEER_TIMEOUT_MS,
        }
    }
}

/// A candidate of a lookup: the peer, its point, its distance to the target, and its state.
pub struct CandidateView {
    pub peer: Seq<u8>,
    pub point: Seq<u8>,
    pub distance: Seq<u8>,
    pub state: PeerState,
}

/// How many candidates are waited for.
pub open spec fn waiting_count(s: Seq<CandidateView>) -> nat
    decreases s.len(),
{
    if s.len() == 0 {
        0
    } else {
        waiting_count(s.drop_last()) + if s.last().state is Waiting {
            1nat
        } else {
            0nat
        }
    }
}

/// Candidates stand in strictly ascending order of distance.
pub open spec fn sorted(s: Seq<CandidateView>) -> bool {
    forall|i: int, j: int| 0 <= i < j < s.len() ==> closer(#[trigger] s[i].distance, #[trigger] s[j].distance)
}

/// Each candidate's distance is that of its point to `target`.
pub open spec fn placed(s: Seq<CandidateView>, target: Seq<u8>) -> bool {
    forall|i: int| 0 <= i < s.len() ==> #[trigger] s[i].distance == distance(target, s[i].point)
}

/// A fresh candidate for `key`.
pub open spec fn candidate_of(key: KeyView, target: Seq<u8>) -> CandidateView {
    CandidateView {
        peer: key.peer,
        point: key.point,
        distance: distance(target, key.point),
        state: PeerState::NotContacted,
    }
}

/// Whether some candidate has distance `d`.
pub open spec fn has_distance(s: Seq<CandidateView>, d: Seq<u8>) -> bool {
    exists|i: int| 0 <= i < s.len() && #[trigger] s[i].distance == d
}

/// `x` placed in `s` before the first candidate farther than it.
pub open spec fn insert_sorted(s: Seq<CandidateView>, x: CandidateView) -> Seq<CandidateView>
    decreases s.len(),
{
    if s.len() == 0 {
        seq![x]
    } else if closer(x.distance, s[0].distance) {
        seq![x] + s
    } else {
        seq![s[0]] + insert_sorted(s.drop_first(), x)
    }
}

/// `x` added to `s`, unless a candidate at its distance is there.
pub open spec fn add_one(s: Seq<CandidateView>, x: CandidateView) -> Seq<CandidateView> {
    if has_distance(s, x.distance) {
        s
    } else {
        insert_sorted(s, x)
    }
}

/// `x` added to `s` where it falls within the `k` closest candidates.
pub open spec fn merge_one(s: Seq<CandidateView>, x: CandidateView, k: nat) -> Seq<CandidateView> {
    if s.len() < k || closer(x.distance, s[k - 1].distance) {
        add_one(s, x)
    } else {
        s
    }
}

/// The keys `xs` merged into `s` one after another, each where it falls within the `k`
/// closest candidates.
pub open spec fn merged(s: Seq<CandidateView>, xs: Seq<CandidateView>, k: nat) -> Seq<
    CandidateView,
>
    decreases xs.len(),
{
    if xs.len() == 0 {
        s
    } else {
        merged(merge_one(s, xs[0], k), xs.drop_first(), k)
    }
}

/// The keys `xs` added to `s` one after another.
pub open spec fn added_all(s: Seq<CandidateView>, xs: Seq<CandidateView>) -> Seq<CandidateView>
    decreases xs.len(),
{
    if xs.len() == 0 {
        s
    } else {
        added_all(add_one(s, xs[0]), xs.drop_first())
    }
}

/// The fresh candidates for a sequence of keys.
pub open spec fn candidates_of(keys: Seq<KeyView>, target: Seq<u8>) -> Seq<CandidateView> {
    keys.map_values(|k: KeyView| candidate_of(k, target))
}

/// Where a scan of the candidates stops.
pub enum Stop {
    /// At a candidate to contact.
    Dispatch,
    /// At a candidate that cannot be served for want of capacity.
    AtCapacity,
    /// At the candidate that completes the results.
    Done,
    /// At the end of the candidates.
    Exhausted,
}

/// The scan of `next` from position `i`: succeeded candidates are counted while no request
/// that is still running comes before them; expired requests are skipped.
pub open spec fn scan(
    s: Seq<CandidateView>,
    i: int,
    now: u64,
    at_capacity: bool,
    counter: Option<nat>,
    k: nat,
) -> (Stop, int)
    decreases s.len() - i,
{
    if i < 0 || i >= s.len() {
        (Stop::Exhausted, s.len() as int)
    } else {
        match s[i].state {
            PeerState::Waiting(deadline) => if now >= deadline {
                scan(s, i + 1, now, at_capacity, counter, k)
            } else if at_capacity {
                (Stop::AtCapacity, i)
            } else {
                scan(s, i + 1, now, at_capacity, None, k)
            },
            PeerState::Succeeded => match counter {
                Some(c) => if c + 1 >= k {
                    (Stop::Done, i)
                } else {
                    scan(s, i + 1, now, at_capacity, Some(c + 1), k)
                },
                None => scan(s, i + 1, now, at_capacity, None, k),
            },
            PeerState::NotContacted => if at_capacity {
                (Stop::AtCapacity, i)
            } else {
                (Stop::Dispatch, i)
            },
            _ => scan(s, i + 1, now, at_capacity, counter, k),
        }
    }
}

/// The candidates once the requests before position `stop` that expired at `now` count as
/// unresponsive.
pub open spec fn expired(s: Seq<CandidateView>, stop: int, now: u64) -> Seq<CandidateView> {
    Seq::new(
        s.len(),
        |j: int|
            if j < stop && (s[j].state matches PeerState::Waiting(d) && now >= d) {
                with_state(s[j], PeerState::Unresponsive)
            } else {
                s[j]
            },
    )
}

/// A candidate in another state.
pub open spec fn with_state(c: CandidateView, state: PeerState) -> CandidateView {
    CandidateView { peer: c.peer, point: c.point, distance: c.distance, state }
}

/// The instant `timeout` after `now`; the latest representable one where that lies beyond.
pub open spec fn deadline_after(now: u64, timeout: u64) -> u64 {
    if now + timeout <= u64::MAX {
        (now + timeout) as u64
    } else {
        u64::MAX
    }
}

/// The first position of a candidate for `peer`, if any.
pub open spec fn first_of(s: Seq<CandidateView>, peer: Seq<u8>) -> Option<int> {
    if exists|i: int| 0 <= i < s.len() && #[trigger] s[i].peer == peer {
        Some(
            choose|i: int|
                0 <= i < s.len() && #[trigger] s[i].peer == peer && forall|j: int|
                    0 <= j < i ==> s[j].peer != peer,
        )
    } else {
        None
    }
}

proof fn lemma_count_concat(a: Seq<CandidateView>, b: Seq<CandidateView>)
    ensures
        waiting_count(a + b) == waiting_count(a) + waiting_count(b),
    decreases b.len(),
{
    if b.len() > 0 {
        assert((a + b).drop_last() =~= a + b.drop_last());
        lemma_count_concat(a, b.drop_last());
    } else {
        assert(a + b =~= a);
    }
}

proof fn lemma_count_single(x: CandidateView)
    ensures
        waiting_count(seq![x]) == if x.state is Waiting {
            1nat
        } else {
            0nat
        },
{
    assert(seq![x].drop_last() =~= Seq::<CandidateView>::empty());
    assert(waiting_count(Seq::<CandidateView>::empty()) == 0);
    assert(seq![x].last() == x);
}

/// Changing one candidate changes the count by what it changes at that candidate.
proof fn lemma_count_update(s: Seq<CandidateView>, i: int, x: CandidateView)
    requires
        0 <= i < s.len(),
    ensures
        waiting_count(s.update(i, x)) + (if s[i].state is Waiting {
            1int
        } else {
            0int
        }) == waiting_count(s) + (if x.state is Waiting {
            1int
        } else {
            0int
        }),
{
    let a = s.take(i);
    let b = s.skip(i + 1);
    assert(s =~= a + seq![s[i]] + b);
    assert(s.update(i, x) =~= a + seq![x] + b);
    lemma_count_concat(a + seq![s[i]], b);
    lemma_count_concat(a, seq![s[i]]);
    lemma_count_concat(a + seq![x], b);
    lemma_count_concat(a, seq![x]);
    lemma_count_single(s[i]);
    lemma_count_single(x);
}

/// Inserting a candidate that is not waited for keeps the count.
proof fn lemma_count_insert(s: Seq<CandidateView>, i: int, x: CandidateView)
    requires
        0 <= i <= s.len(),
        !(x.state is Waiting),
    ensures
        waiting_count(s.insert(i, x)) == waiting_count(s),
{
    let a = s.take(i);
    let b = s.skip(i);
    assert(s =~= a + b);
    assert(s.insert(i, x) =~= a + seq![x] + b);
    lemma_count_concat(a + seq![x], b);
    lemma_count_concat(a, seq![x]);
    lemma_count_concat(a, b);
    lemma_count_single(x);
}

/// Inserting before the first farther candidate is the sorted insertion.
proof fn lemma_insert_sorted_at(s: Seq<CandidateView>, x: CandidateView, pos: int)
    requires
        0 <= pos <= s.len(),
        forall|j: int| 0 <= j < pos ==> !closer(x.distance, #[trigger] s[j].distance),
        pos < s.len() ==> closer(x.distance, s[pos].distance),
    ensures
        insert_sorted(s, x) == s.insert(pos, x),
    decreases pos,
{
    if s.len() == 0 {
        assert(s.insert(pos, x) =~= seq![x]);
    } else if pos == 0 {
        assert(s.insert(0, x) =~= seq![x] + s);
    } else {
        let t = s.drop_first();
        assert forall|j: int| 0 <= j < pos - 1 implies !closer(x.distance, #[trigger] t[j].distance) by {
            assert(t[j] == s[j + 1]);
        }
        if pos - 1 < t.len() {
            assert(t[pos - 1] == s[pos]);
        }
        lemma_insert_sorted_at(t, x, pos - 1);
        assert(!closer(x.distance, s[0].distance));
        assert(seq![s[0]] + t.insert(pos - 1, x) =~= s.insert(pos, x));
    }
}

struct Candidate {
    key: Key,
    distance: Vec<u8>,
    state: PeerState,
}

impl View for Candidate {
    type V = CandidateView;

    closed spec fn view(&self) -> CandidateView {
        CandidateView {
            peer: self.key@.peer,
            point: self.key@.point,
            distance: self.distance@,
            state: self.state,
        }
    }
}

/// The iterator of one lookup towards a target.
pub struct ClosestPeersIter {
    config: ClosestPeersIterConfig,
    target: [u8; 32],
    closest_peers: Vec<Candidate>,
    finished: bool,
    num_waiting: usize,
}

impl ClosestPeersIter {
    /// The candidates, closest first.
    pub closed spec fn candidates(&self) -> Seq<CandidateView> {
        self.closest_peers@.map_values(|c: Candidate| c@)
    }

    pub closed spec fn spec_config(&self) -> ClosestPeersIterConfig {
        self.config
    }

    pub closed spec fn spec_target(&self) -> Seq<u8> {
        self.target@
    }

    pub closed spec fn spec_finished(&self) -> bool {
        self.finished
    }

    /// How many requests are in flight.
    pub closed spec fn spec_num_waiting(&self) -> nat {
        self.num_waiting as nat
    }

    /// The invariant: candidates sorted by their distance to the target, the in-flight count
    /// exact and within the parallelism.
    pub closed spec fn wf(&self) -> bool {
        &&& self.config.parallelism > 0
        &&& self.config.num_results > 0
        &&& sorted(self.candidates())
        &&& placed(self.candidates(), self.target@)
        &&& self.num_waiting == waiting_count(self.candidates())
        &&& self.num_waiting <= self.config.parallelism
    }

    /// The in-flight count never exceeds the parallelism.
    pub proof fn lemma_waiting_bounded(&self)
        requires
            self.wf(),
        ensures
            waiting_count(self.candidates()) == self.spec_num_waiting(),
            self.spec_num_waiting() <= self.spec_config().parallelism,
            sorted(self.candidates()),
            placed(self.candidates(), self.spec_target()),
    {
    }

    /// Where a candidate at distance `d` would go, and whether one is there already.
    fn locate(&self, d: &Vec<u8>) -> (r: (usize, bool))
        requires
            self.wf(),
            d@.len() == 32,
        ensures
            r.0 <= self.candidates().len(),
            forall|j: int| 0 <= j < r.0 ==> closer(#[trigger] self.candidates()[j].distance, d@),
            r.0 < self.candidates().len() ==> !closer(self.candidates()[r.0 as int].distance, d@),
            r.1 == has_distance(self.candidates(), d@),
            !r.1 ==> r.0 < self.candidates().len() ==> closer(d@, self.candidates()[r.0 as int].distance),
    {
        let ghost s = self.candidates();
        let mut i: usize = 0;
        while i < self.closest_peers.len()
            invariant
                i <= self.closest_peers.len(),
                s == self.candidates(),
                self.wf(),
                d@.len() == 32,
                forall|j: int| 0 <= j < i ==> closer(#[trigger] s[j].distance, d@),
            decreases self.closest_peers.len() - i,
        {
            assert(s[i as int] == self.closest_peers@[i as int]@);
            assert(s[i as int].distance.len() == 32) by {
                assert(s[i as int].distance == distance(self.target@, s[i as int].point));
            }
            let c = compare_distances(&self.closest_peers[i].distance, d);
            if c >= 0 {
                let equal = c == 0;
                proof {
                    if !equal {
                        assert(closer(d@, s[i as int].distance));
                        lemma_closer_asymmetric(d@, s[i as int].distance);
                    }
                    if equal {
                        assert(s[i as int].distance == d@);
                    } else {
                        assert forall|j: int| 0 <= j < s.len() implies #[trigger] s[j].distance != d@ by {
                            if j < i {
                                lemma_closer_asymmetric(s[j].distance, d@);
                            } else if j > i {
                                assert(closer(s[i as int].distance, s[j].distance));
                                if s[j].distance == d@ {
                                    lemma_closer_asymmetric(d@, s[i as int].distance);
                                }
                            }
                        }
                    }
                }
                return (i, equal);
            }
            i = i + 1;
        }
        proof {
            assert forall|j: int| 0 <= j < s.len() implies #[trigger] s[j].distance != d@ by {
                lemma_closer_asymmetric(s[j].distance, d@);
            }
        }
        (i, false)
    }

    /// Adds a fresh candidate for `key` unless one at its distance is there; where `limit` is
    /// set, only where it falls within the `limit` closest candidates.
    pub(crate) fn add_key(&mut self, key: Key, limit: Option<usize>)
        requires
            old(self).wf(),
            limit matches Some(k) ==> k > 0,
        ensures
            final(self).wf(),
            final(self).spec_config() == old(self).spec_config(),
            final(self).spec_target() == old(self).spec_target(),
            final(self).spec_finished() == old(self).spec_finished(),
            final(self).candidates() == match limit {
                Some(k) => merge_one(old(self).candidates(), candidate_of(key@, old(self).spec_target()), k as nat),
                None => add_one(old(self).candidates(), candidate_of(key@, old(self).spec_target())),
            },
    {
        let ghost s = self.candidates();
        let ghost x = candidate_of(key@, self.target@);
        let point = key.point();
        let d = distance_of(&self.target, &point);
        proof {
            key.lemma_point_len();
        }
        let within = match limit {
            Some(k) => {
                if self.closest_peers.len() < k {
                    true
                } else {
                    let last = k - 1;
                    assert(s[last as int] == self.closest_peers@[last as int]@);
                    assert(s[last as int].distance == distance(self.target@, s[last as int].point));
                    assert(s[last as int].distance.len() == 32);
                    compare_distances(&d, &self.closest_peers[k - 1].distance) < 0
                }
            },
            None => true,
        };
        if !within {
            return;
        }
        let (pos, present) = self.locate(&d);
        if present {
            return;
        }
        proof {
            assert forall|j: int| 0 <= j < pos implies !closer(x.distance, #[trigger] s[j].distance) by {
                lemma_closer_asymmetric(s[j].distance, x.distance);
            }
            lemma_insert_sorted_at(s, x, pos as int);
            lemma_count_insert(s, pos as int, x);
        }
        self.closest_peers.insert(pos, Candidate { key, distance: d, state: PeerState::NotContacted });
        proof {
            let t = self.candidates();
            assert(t =~= s.insert(pos as int, x));
            assert forall|i: int, j: int| 0 <= i < j < t.len() implies closer(#[trigger] t[i].distance, #[trigger] t[j].distance) by {
                if j < pos {
                    assert(t[i] == s[i] && t[j] == s[j]);
                } else if j == pos {
                    assert(t[i] == s[i]);
                } else if i == pos {
                    assert(t[j] == s[j - 1]);
                    if j - 1 > pos {
                        assert(closer(s[pos as int].distance, s[j - 1].distance));
                        lemma_closer_transitive(x.distance, s[pos as int].distance, s[j - 1].distance);
                    }
                } else if i < pos {
                    assert(t[i] == s[i] && t[j] == s[j - 1]);
                } else {
                    assert(t[i] == s[i - 1] && t[j] == s[j - 1]);
                }
            }
        }
    }

    /// A lookup towards `target` that starts from the first [`K_VALUE`] of the known peers.
    pub fn with_config(config: ClosestPeersIterConfig, target: [u8; 32], known_closest_peers: Vec<Key>) -> (r: Self)
        requires
            config.parallelism > 0,
            config.num_results > 0,
        ensures
            r.wf(),
            r.spec_config() == config,
            r.spec_target() == target@,
            !r.spec_finished(),
            r.candidates() == added_all(
                Seq::empty(),
                candidates_of(
                    if known_closest_peers@.len() > K_VALUE {
                        known_closest_peers@.take(K_VALUE as int)
                    } else {
                        known_closest_peers@
                    }.map_values(|k: Key| k@),
                    target@,
                ),
            ),
    {
        let mut it = ClosestPeersIter {
            config,
            target,
            closest_peers: Vec::new(),
            finished: false,
            num_waiting: 0,
        };
        let ghost seeds = if known_closest_peers@.len() > K_VALUE {
            known_closest_peers@.take(K_VALUE as int)
        } else {
            known_closest_peers@
        };
        let ghost xs = candidates_of(seeds.map_values(|k: Key| k@), target@);
        let n: usize = if known_closest_peers.len() > K_VALUE { K_VALUE } else { known_closest_peers.len() };
        assert(it.candidates() =~= Seq::<CandidateView>::empty());
        let mut keys = known_closest_peers;
        assert(xs.skip(0) =~= xs);
        assert(keys@.take(n as int) =~= seeds);
        let mut i: usize = 0;
        while i < n
            invariant
                i <= n,
                n == seeds.len(),
                n <= keys@.len(),
                keys@.take(n as int) == seeds,
                xs == candidates_of(seeds.map_values(|k: Key| k@), target@),
                it.wf(),
                it.config == config,
                it.target == target,
                !it.finished,
                added_all(it.candidates(), xs.skip(i as int)) == added_all(Seq::empty(), xs),
            decreases n - i,
        {
            let key = keys[i].duplicate();
            assert(xs.skip(i as int)[0] == xs[i as int]);
            assert(xs[i as int] == candidate_of(keys@[i as int]@, target@)) by {
                assert(seeds[i as int] == keys@[i as int]);
            }
            assert(xs.skip(i as int).drop_first() =~= xs.skip(i + 1));
            it.add_key(key, None);
            i = i + 1;
        }
        assert(xs.skip(i as int) =~= Seq::<CandidateView>::empty());
        it
    }
}

/// Changes the state of the candidate at `i`.
fn set_state(peers: &mut Vec<Candidate>, i: usize, state: PeerState)
    requires
        i < old(peers)@.len(),
    ensures
        final(peers)@.map_values(|c: Candidate| c@) == old(peers)@.map_values(|c: Candidate| c@).update(
            i as int,
            with_state(old(peers)@[i as int]@, state),
        ),
{
    let c = peers.remove(i);
    let ghost before = old(peers)@.map_values(|c: Candidate| c@);
    peers.insert(i, Candidate { key: c.key, distance: c.distance, state });
    assert(peers@.map_values(|c: Candidate| c@) =~= before.update(
        i as int,
        with_state(old(peers)@[i as int]@, state),
    ));
}

/// The first position of a candidate for `peer`, if any.
fn find_peer(peers: &Vec<Candidate>, peer: &PeerId) -> (r: Option<usize>)
    ensures
        r matches Some(i) ==> i < peers@.len(),
        ({
            let s = peers@.map_values(|c: Candidate| c@);
            match r {
                Some(i) => first_of(s, peer@) == Some(i as int),
                None => first_of(s, peer@) is None,
            }
        }),
{
    let ghost s = peers@.map_values(|c: Candidate| c@);
    let mut i: usize = 0;
    while i < peers.len()
        invariant
            i <= peers@.len(),
            s == peers@.map_values(|c: Candidate| c@),
            forall|j: int| 0 <= j < i ==> #[trigger] s[j].peer != peer@,
        decreases peers.len() - i,
    {
        assert(s[i as int] == peers@[i as int]@);
        if peers[i].key.preimage().same_as(peer) {
            proof {
                assert(s[i as int].peer == peer@);
                let j = choose|j: int|
                    0 <= j < s.len() && #[trigger] s[j].peer == peer@ && forall|m: int|
                        0 <= m < j ==> s[m].peer != peer@;
                if j > i {
                    assert(s[i as int].peer != peer@);
                }
            }
            return Some(i);
        }
        i = i + 1;
    }
    None
}

/// What one call of `next` at `now` does: from `o` to `n`, answering `r`.
pub open spec fn closest_next(o: ClosestPeersIter, n: ClosestPeersIter, now: u64, r: PeersIterState) -> bool {
    &&& (n.spec_config() == o.spec_config())
    &&& (n.spec_target() == o.spec_target())
    &&& (r is Finished <==> n.spec_finished())
    &&& (o.spec_finished() ==> r is Finished && n.spec_finished()
        && n.candidates() == o.candidates())
    &&& (!o.spec_finished() ==> ({
        let s = o.candidates();
        let sc = scan(
            s,
            0,
            now,
            o.spec_num_waiting() >= o.spec_config().parallelism,
            Some(0),
            o.spec_config().num_results as nat,
        );
        let t = expired(s, sc.1, now);
        match sc.0 {
            Stop::Dispatch => {
                &&& n.candidates() == t.update(
                    sc.1,
                    with_state(
                        s[sc.1],
                        PeerState::Waiting(deadline_after(now, o.spec_config().peer_timeout)),
                    ),
                )
                &&& !n.spec_finished()
                &&& r matches PeersIterState::Waiting(Some(p)) && p@ == s[sc.1].peer
            },
            Stop::AtCapacity => n.candidates() == t && !n.spec_finished()
                && r is WaitingAtCapacity,
            Stop::Done => n.candidates() == t && n.spec_finished()
                && r is Finished,
            Stop::Exhausted => n.candidates() == t && if waiting_count(t) > 0 {
                !n.spec_finished() && r matches PeersIterState::Waiting(None)
            } else {
                n.spec_finished() && r is Finished
            },
        }
    }))
}

/// What `on_success` for `peer` with `closer_peers` does: from `o` to `n`, answering `r`.
pub open spec fn closest_on_success(o: ClosestPeersIter, n: ClosestPeersIter, peer: Seq<u8>, closer_peers: Seq<Key>, r: bool) -> bool {
    &&& (n.spec_config() == o.spec_config())
    &&& (n.spec_target() == o.spec_target())
    &&& (n.spec_finished() == o.spec_finished())
    &&& (({
        let s = o.candidates();
        let found = first_of(s, peer);
        &&& r == (!o.spec_finished() && found is Some && (s[found->Some_0].state is Waiting
            || s[found->Some_0].state is Unresponsive))
        &&& r ==> n.candidates() == merged(
            s.update(found->Some_0, with_state(s[found->Some_0], PeerState::Succeeded)),
            candidates_of(closer_peers.map_values(|k: Key| k@), o.spec_target()),
            o.spec_config().num_results as nat,
        )
        &&& !r ==> n.candidates() == s
    }))
}

/// What `on_failure` for `peer` does: from `o` to `n`, answering `r`.
pub open spec fn closest_on_failure(o: ClosestPeersIter, n: ClosestPeersIter, peer: Seq<u8>, r: bool) -> bool {
    &&& (n.spec_config() == o.spec_config())
    &&& (n.spec_target() == o.spec_target())
    &&& (n.spec_finished() == o.spec_finished())
    &&& (({
        let s = o.candidates();
        let found = first_of(s, peer);
        &&& r == (!o.spec_finished() && found is Some && (s[found->Some_0].state is Waiting
            || s[found->Some_0].state is Unresponsive))
        &&& r ==> n.candidates() == s.update(
            found->Some_0,
            with_state(s[found->Some_0], PeerState::Failed),
        )
        &&& !r ==> n.candidates() == s
    }))
}

impl ClosestPeersIter {
    /// Picks the next peer to contact at `now` (milliseconds), marking the requests that
    /// expired on the way as unresponsive, or says why there is none.
    pub fn next(&mut self, now: u64) -> (r: PeersIterState)
        requires
            old(self).wf(),
        ensures
            final(self).wf(),
            closest_next(*old(self), *final(self), now, r),
    {
        if self.finished {
            return PeersIterState::Finished;
        }
        let ghost s = self.candidates();
        let ghost w0 = self.num_waiting;
        let at_capacity = self.num_waiting >= self.config.parallelism;
        let k = self.config.num_results;
        let mut counter: Option<usize> = Some(0);
        let ghost sc = scan(s, 0, now, at_capacity, Some(0), k as nat);
        let mut i: usize = 0;
        assert(expired(s, 0, now) =~= s);
        while i < self.closest_peers.len()
            invariant
                i <= self.closest_peers@.len(),
                s.len() == self.closest_peers@.len(),
                self.config == old(self).config,
                self.target == old(self).target,
                !self.finished,
                !old(self).finished,
                s == old(self).candidates(),
                at_capacity == (old(self).num_waiting >= old(self).config.parallelism),
                k == self.config.num_results,
                k > 0,
                self.config.parallelism > 0,
                sorted(s),
                placed(s, self.target@),
                w0 == old(self).num_waiting,
                w0 <= self.config.parallelism,
                self.candidates() == expired(s, i as int, now),
                self.num_waiting == waiting_count(self.candidates()),
                self.num_waiting <= w0,
                sc == scan(s, 0, now, at_capacity, Some(0), k as nat),
                sc == scan(
                    s,
                    i as int,
                    now,
                    at_capacity,
                    match counter {
                        Some(c) => Some(c as nat),
                        None => None,
                    },
                    k as nat,
                ),
                counter matches Some(c) ==> c < k,
            decreases self.closest_peers.len() - i,
        {
            let ghost cur = self.candidates();
            assert(cur[i as int] == s[i as int]);
            assert(self.closest_peers@[i as int]@ == cur[i as int]);
            let state = self.closest_peers[i].state;
            match state {
                PeerState::Waiting(deadline) => {
                    if now >= deadline {
                        set_state(&mut self.closest_peers, i, PeerState::Unresponsive);
                        proof {
                            lemma_count_update(cur, i as int, with_state(cur[i as int], PeerState::Unresponsive));
                            assert(self.candidates() =~= expired(s, i + 1, now));
                        }
                        self.num_waiting = self.num_waiting - 1;
                    } else if at_capacity {
                        return PeersIterState::WaitingAtCapacity;
                    } else {
                        counter = None;
                        assert(self.candidates() =~= expired(s, i + 1, now));
                    }
                },
                PeerState::Succeeded => {
                    if let Some(c) = counter {
                        if c + 1 >= k {
                            self.finished = true;
                            return PeersIterState::Finished;
                        }
                        counter = Some(c + 1);
                    }
                    assert(self.candidates() =~= expired(s, i + 1, now));
                },
                PeerState::NotContacted => {
                    if !at_capacity {
                        let timeout = self.config.peer_timeout;
                        let deadline = if now <= u64::MAX - timeout {
                            now + timeout
                        } else {
                            u64::MAX
                        };
                        set_state(&mut self.closest_peers, i, PeerState::Waiting(deadline));
                        proof {
                            lemma_count_update(cur, i as int, with_state(cur[i as int], PeerState::Waiting(deadline)));
                        }
                        self.num_waiting = self.num_waiting + 1;
                        let p = self.closest_peers[i].key.preimage().duplicate();
                        assert(self.candidates()[i as int].peer == s[i as int].peer);
                        assert(self.closest_peers@[i as int]@ == self.candidates()[i as int]);
                        return PeersIterState::Waiting(Some(p));
                    } else {
                        return PeersIterState::WaitingAtCapacity;
                    }
                },
                _ => {
                    assert(self.candidates() =~= expired(s, i + 1, now));
                },
            }
            i = i + 1;
        }
        assert(sc == (Stop::Exhausted, s.len() as int));
        if self.num_waiting > 0 {
            PeersIterState::Waiting(None)
        } else {
            self.finished = true;
            PeersIterState::Finished
        }
    }

    /// Records that `peer` answered, learning `closer_peers` from it. Returns whether the
    /// answer was taken: the lookup runs, and a request to the peer was in flight or had
    /// expired.
    pub fn on_success(&mut self, peer: &PeerId, closer_peers: Vec<Key>) -> (r: bool)
        requires
            old(self).wf(),
        ensures
            final(self).wf(),
            closest_on_success(*old(self), *final(self), peer@, closer_peers@, r),
    {
        if self.finished {
            return false;
        }
        let ghost s = self.candidates();
        let i = match find_peer(&self.closest_peers, peer) {
            Some(i) => i,
            None => {
                return false;
            },
        };
        assert(self.closest_peers@[i as int]@ == s[i as int]);
        match self.closest_peers[i].state {
            PeerState::Waiting(_) => {
                set_state(&mut self.closest_peers, i, PeerState::Succeeded);
                proof {
                    lemma_count_update(s, i as int, with_state(s[i as int], PeerState::Succeeded));
                }
                self.num_waiting = self.num_waiting - 1;
            },
            PeerState::Unresponsive => {
                set_state(&mut self.closest_peers, i, PeerState::Succeeded);
                proof {
                    lemma_count_update(s, i as int, with_state(s[i as int], PeerState::Succeeded));
                }
            },
            _ => {
                return false;
            },
        }
        let ghost start = self.candidates();
        let ghost xs = candidates_of(closer_peers@.map_values(|k: Key| k@), self.target@);
        let k = self.config.num_results;
        assert(xs.skip(0) =~= xs);
        let mut j: usize = 0;
        while j < closer_peers.len()
            invariant
                j <= closer_peers@.len(),
                xs.len() == closer_peers@.len(),
                xs == candidates_of(closer_peers@.map_values(|k: Key| k@), self.target@),
                self.wf(),
                self.config == old(self).config,
                self.target == old(self).target,
                !self.finished,
                k == self.config.num_results,
                merged(self.candidates(), xs.skip(j as int), k as nat) == merged(start, xs, k as nat),
            decreases closer_peers.len() - j,
        {
            let key = closer_peers[j].duplicate();
            assert(xs.skip(j as int)[0] == xs[j as int]);
            assert(xs.skip(j as int).drop_first() =~= xs.skip(j + 1));
            self.add_key(key, Some(k));
            j = j + 1;
        }
        assert(xs.skip(j as int) =~= Seq::<CandidateView>::empty());
        true
    }

    /// Records that the request to `peer` failed. Returns whether that was taken: the lookup
    /// runs, and a request to the peer was in flight or had expired.
    pub fn on_failure(&mut self, peer: &PeerId) -> (r: bool)
        requires
            old(self).wf(),
        ensures
            final(self).wf(),
            closest_on_failure(*old(self), *final(self), peer@, r),
    {
        if self.finished {
            return false;
        }
        let ghost s = self.candidates();
        let i = match find_peer(&self.closest_peers, peer) {
            Some(i) => i,
            None => {
                return false;
            },
        };
        assert(self.closest_peers@[i as int]@ == s[i as int]);
        match self.closest_peers[i].state {
            PeerState::Waiting(_) => {
                set_state(&mut self.closest_peers, i, PeerState::Failed);
                proof {
                    lemma_count_update(s, i as int, with_state(s[i as int], PeerState::Failed));
                }
                self.num_waiting = self.num_waiting - 1;
                true
            },
            PeerState::Unresponsive => {
                set_state(&mut self.closest_peers, i, PeerState::Failed);
                proof {
                    lemma_count_update(s, i as int, with_state(s[i as int], PeerState::Failed));
                }
                true
            },
            _ => false,
        }
    }

    /// Ends the lookup.
    pub fn finish(&mut self)
        requires
            old(self).wf(),
        ensures
            final(self).wf(),
            final(self).spec_finished(),
            final(self).candidates() == old(self).candidates(),
            final(self).spec_config() == old(self).spec_config(),
            final(self).spec_target() == old(self).spec_target(),
    {
        self.finished = true;
    }

    /// Whether the lookup has ended.
    pub fn is_finished(&self) -> (r: bool)
        ensures
            r == self.spec_finished(),
    {
        self.finished
    }

    /// The peers that answered, closest first, at most as many as the lookup aims for.
    pub fn into_result(self) -> (r: Vec<PeerId>)
        ensures
            r@.map_values(|p: PeerId| p@) == up_to_len(
                succeeded_peers(self.candidates()),
                self.spec_config().num_results as nat,
            ),
    {
        let ghost s = self.candidates();
        let mut out: Vec<PeerId> = Vec::new();
        let mut i: usize = 0;
        while i < self.closest_peers.len() && out.len() < self.config.num_results
            invariant
                i <= self.closest_peers@.len(),
                s == self.candidates(),
                out@.map_values(|p: PeerId| p@) == succeeded_peers(s.take(i as int)),
                out@.len() <= self.config.num_results,
            decreases self.closest_peers.len() - i,
        {
            assert(self.closest_peers@[i as int]@ == s[i as int]);
            assert(s.take(i + 1) =~= s.take(i as int).push(s[i as int]));
            proof {
                lemma_succeeded_push(s.take(i as int), s[i as int]);
            }
            if self.closest_peers[i].state == PeerState::Succeeded {
                let ghost before = out@.map_values(|p: PeerId| p@);
                out.push(self.closest_peers[i].key.preimage().duplicate());
                assert(out@.map_values(|p: PeerId| p@) =~= before.push(s[i as int].peer));
            }
            i = i + 1;
        }
        proof {
            lemma_succeeded_split(s, i as int);
            if i == s.len() {
                assert(s.take(i as int) =~= s);
            } else {
                assert(out@.len() == self.config.num_results);
                assert(succeeded_peers(s).take(out@.len() as int) =~= succeeded_peers(s.take(i as int)));
            }
        }
        out
    }
}

/// The peers of the succeeded candidates, in order.
pub open spec fn succeeded_peers(s: Seq<CandidateView>) -> Seq<Seq<u8>>
    decreases s.len(),
{
    if s.len() == 0 {
        Seq::empty()
    } else if s.last().state is Succeeded {
        succeeded_peers(s.drop_last()).push(s.last().peer)
    } else {
        succeeded_peers(s.drop_last())
    }
}

/// The first `n` elements of `s`, or all of them.
pub open spec fn up_to_len<A>(s: Seq<A>, n: nat) -> Seq<A> {
    if n < s.len() {
        s.take(n as int)
    } else {
        s
    }
}

proof fn lemma_succeeded_push(s: Seq<CandidateView>, x: CandidateView)
    ensures
        succeeded_peers(s.push(x)) == if x.state is Succeeded {
            succeeded_peers(s).push(x.peer)
        } else {
            succeeded_peers(s)
        },
{
    assert(s.push(x).drop_last() =~= s);
}

proof fn lemma_succeeded_split(s: Seq<CandidateView>, i: int)
    requires
        0 <= i <= s.len(),
    ensures
        succeeded_peers(s) == succeeded_peers(s.take(i)) + succeeded_peers(s.skip(i)),
    decreases s.len() - i,
{
    if i == s.len() {
        assert(s.take(i) =~= s);
        assert(s.skip(i) =~= Seq::<CandidateView>::empty());
        assert(succeeded_peers(s) + Seq::<Seq<u8>>::empty() =~= succeeded_peers(s));
    } else {
        lemma_succeeded_split(s, i + 1);
        let t = s.skip(i);
        assert(t.drop_first() =~= s.skip(i + 1));
        lemma_succeeded_front(t);
        assert(s.take(i + 1) =~= s.take(i).push(s[i]));
        lemma_succeeded_push(s.take(i), s[i]);
        assert(t[0] == s[i]);
        if s[i].state is Succeeded {
            assert(succeeded_peers(s.take(i)).push(s[i].peer) + succeeded_peers(s.skip(i + 1))
                =~= succeeded_peers(s.take(i)) + (seq![s[i].peer] + succeeded_peers(s.skip(i + 1))));
        }
    }
}

proof fn lemma_succeeded_front(t: Seq<CandidateView>)
    requires
        t.len() > 0,
    ensures
        succeeded_peers(t) == if t[0].state is Succeeded {
            seq![t[0].peer] + succeeded_peers(t.drop_first())
        } else {
            succeeded_peers(t.drop_first())
        },
    decreases t.len(),
{
    if t.len() == 1 {
        assert(t.drop_last() =~= Seq::<CandidateView>::empty());
        assert(t.drop_first() =~= Seq::<CandidateView>::empty());
        assert(succeeded_peers(Seq::<CandidateView>::empty()) == Seq::<Seq<u8>>::empty());
        assert(seq![t[0].peer] + Seq::<Seq<u8>>::empty() =~= seq![t[0].peer]);
    } else {
        let d = t.drop_last();
        lemma_succeeded_front(d);
        assert(d.drop_first() =~= t.drop_first().drop_last());
        assert(t.drop_first().last() == t.last());
        if t[0].state is Succeeded && t.last().state is Succeeded {
            assert(seq![t[0].peer] + succeeded_peers(d.drop_first()).push(t.last().peer)
                =~= (seq![t[0].peer] + succeeded_peers(d.drop_first())).push(t.last().peer));
        }
    }
}

/// A scan that meets `k` succeeded candidates before any request in flight or any candidate
/// to contact stops there, done.
proof fn lemma_scan_done_from(s: Seq<CandidateView>, i: int, now: u64, at_capacity: bool, k: nat)
    requires
        0 <= i < k,
        k <= s.len(),
        forall|j: int| 0 <= j < k ==> #[trigger] s[j].state is Succeeded,
    ensures
        scan(s, i, now, at_capacity, Some(i as nat), k).0 is Done,
    decreases k - i,
{
    if i + 1 < k {
        lemma_scan_done_from(s, i + 1, now, at_capacity, k);
    }
}

/// A scan over candidates none of which is to contact or waited for ends done or exhausted.
proof fn lemma_scan_settled(
    s: Seq<CandidateView>,
    i: int,
    now: u64,
    at_capacity: bool,
    counter: Option<nat>,
    k: nat,
)
    requires
        0 <= i,
        forall|j: int| 0 <= j < s.len() ==> !(#[trigger] s[j].state is NotContacted) && !(s[j].state is Waiting),
    ensures
        scan(s, i, now, at_capacity, counter, k).0 is Done || scan(s, i, now, at_capacity, counter, k)
            == (Stop::Exhausted, s.len() as int),
    decreases s.len() - i,
{
    if i < s.len() {
        match counter {
            Some(c) => {
                lemma_scan_settled(s, i + 1, now, at_capacity, Some(c + 1), k);
            },
            None => {},
        }
        lemma_scan_settled(s, i + 1, now, at_capacity, counter, k);
        lemma_scan_settled(s, i + 1, now, at_capacity, None, k);
    }
}

proof fn lemma_no_waiting(s: Seq<CandidateView>)
    requires
        forall|j: int| 0 <= j < s.len() ==> !(#[trigger] s[j].state is Waiting),
    ensures
        waiting_count(s) == 0,
    decreases s.len(),
{
    if s.len() > 0 {
        let d = s.drop_last();
        assert forall|j: int| 0 <= j < d.len() implies !(#[trigger] d[j].state is Waiting) by {
            assert(d[j] == s[j]);
        }
        lemma_no_waiting(d);
    }
}

/// A lookup ends at the next call of `next` once the `k` closest candidates have all
/// answered, and once no candidate is left to contact or waited for.
pub proof fn lemma_lookup_terminates(s: Seq<CandidateView>, now: u64, at_capacity: bool, k: nat)
    requires
        k > 0,
    ensures
        k <= s.len() && (forall|j: int| 0 <= j < k ==> #[trigger] s[j].state is Succeeded) ==> scan(
            s,
            0,
            now,
            at_capacity,
            Some(0),
            k,
        ).0 is Done,
        (forall|j: int|
            0 <= j < s.len() ==> !(#[trigger] s[j].state is NotContacted) && !(s[j].state is Waiting))
            ==> ({
            let sc = scan(s, 0, now, at_capacity, Some(0), k);
            sc.0 is Done || (sc.0 is Exhausted && waiting_count(expired(s, sc.1, now)) == 0)
        }),
{
    if k <= s.len() && (forall|j: int| 0 <= j < k ==> #[trigger] s[j].state is Succeeded) {
        lemma_scan_done_from(s, 0, now, at_capacity, k);
    }
    if forall|j: int|
        0 <= j < s.len() ==> !(#[trigger] s[j].state is NotContacted) && !(s[j].state is Waiting) {
        lemma_scan_settled(s, 0, now, at_capacity, Some(0), k);
        let t = expired(s, s.len() as int, now);
        assert forall|j: int| 0 <= j < t.len() implies !(#[trigger] t[j].state is Waiting) by {
            assert(t[j] == s[j]);
        }
        lemma_no_waiting(t);
    }
}

impl ClosestPeersIter {
    /// Whether a candidate for `peer` is known, and in which state.
    pub fn state_of(&self, peer: &PeerId) -> (r: Option<PeerState>)
        ensures
            match first_of(self.candidates(), peer@) {
                Some(i) => r == Some(self.candidates()[i].state),
                None => r is None,
            },
    {
        match find_peer(&self.closest_peers, peer) {
            Some(i) => {
                assert(self.closest_peers@[i as int]@ == self.candidates()[i as int]);
                Some(self.closest_peers[i].state)
            },
            None => None,
        }
    }
}

/// A lookup ends at the next call of `next` once its `num_results` closest candidates have
/// all answered, and once no candidate is left to contact or waited for.
pub proof fn lemma_next_ends_lookup(o: ClosestPeersIter, n: ClosestPeersIter, now: u64, r: PeersIterState)
    requires
        o.wf(),
        closest_next(o, n, now, r),
        (o.spec_config().num_results <= o.candidates().len() && forall|j: int|
            0 <= j < o.spec_config().num_results ==> (#[trigger] o.candidates()[j]).state is Succeeded)
            || (forall|j: int|
            0 <= j < o.candidates().len() ==> !((#[trigger] o.candidates()[j]).state is NotContacted)
                && !(o.candidates()[j].state is Waiting)),
    ensures
        r is Finished,
        n.spec_finished(),
{
    if !o.spec_finished() {
        lemma_lookup_terminates(
            o.candidates(),
            now,
            o.spec_num_waiting() >= o.spec_config().parallelism,
            o.spec_config().num_results as nat,
        );
    }
}

} // verus!
