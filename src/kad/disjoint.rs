//! The disjoint-paths iterator: one closest-peers iterator per path, each peer on one path
//! only, so that one region of the key space cannot steer the whole lookup.

use vstd::prelude::*;

use crate::kad::closest::{
    first_of, succeeded_peers, up_to_len, ClosestPeersIter, ClosestPeersIterConfig, PeerState,
    PeersIterState, K_VALUE,
};
use crate::kad::key::Key;
use crate::peer::PeerId;

verus! {

/// A path takes the answer of `peer`: it runs, and a request to the peer was in flight or
/// had expired.
pub open spec fn takes_answer(it: ClosestPeersIter, peer: Seq<u8>) -> bool {
    !it.spec_finished() && match first_of(it.candidates(), peer) {
        Some(i) => it.candidates()[i].state is Waiting || it.candidates()[i].state is Unresponsive,
        None => false,
    }
}

/// The first path that knows `peer`, if any.
#[verifier::opaque]
pub open spec fn first_path_of(paths: Seq<ClosestPeersIter>, peer: Seq<u8>) -> Option<int> {
    if exists|p: int| 0 <= p < paths.len() && (first_of(#[trigger] paths[p].candidates(), peer) is Some) {
        Some(
            choose|p: int|
                0 <= p < paths.len() && (first_of(#[trigger] paths[p].candidates(), peer) is Some)
                    && forall|q: int| 0 <= q < p ==> first_of(paths[q].candidates(), peer) is None,
        )
    } else {
        None
    }
}

/// The lookup takes the answer of `peer`: the first path that knows the peer takes it.
pub open spec fn paths_take_answer(paths: Seq<ClosestPeersIter>, peer: Seq<u8>) -> bool {
    match first_path_of(paths, peer) {
        Some(p) => takes_answer(paths[p], peer),
        None => false,
    }
}

/// A path has settled with `peer`: it knows the peer, and the peer answered, failed, or did
/// not answer in time.
pub open spec fn settled_with(it: ClosestPeersIter, peer: Seq<u8>) -> bool {
    match first_of(it.candidates(), peer) {
        Some(i) => it.candidates()[i].state is Succeeded || it.candidates()[i].state is Failed
            || it.candidates()[i].state is Unresponsive,
        None => false,
    }
}

/// A path has settled with one of `peers`.
pub open spec fn settled_with_any(it: ClosestPeersIter, peers: Seq<PeerId>) -> bool {
    exists|k: int| 0 <= k < peers.len() && settled_with(it, #[trigger] peers[k]@)
}

/// Two sequences of paths hold the same lookups: the same candidates, in the same states,
/// with the same end.
pub open spec fn same_paths(a: Seq<ClosestPeersIter>, b: Seq<ClosestPeersIter>) -> bool {
    &&& a.len() == b.len()
    &&& forall|p: int|
        0 <= p < a.len() ==> {
            &&& (#[trigger] a[p]).candidates() == b[p].candidates()
            &&& a[p].spec_finished() == b[p].spec_finished()
            &&& a[p].spec_config() == b[p].spec_config()
            &&& a[p].spec_target() == b[p].spec_target()
        }
}

/// Every path has ended.
pub open spec fn all_finished(paths: Seq<ClosestPeersIter>) -> bool {
    forall|p: int| 0 <= p < paths.len() ==> (#[trigger] paths[p]).spec_finished()
}

/// Paths that ended alike end alike as a whole.
pub proof fn lemma_all_finished_alike(a: Seq<ClosestPeersIter>, b: Seq<ClosestPeersIter>)
    requires
        a.len() == b.len(),
        forall|p: int| 0 <= p < a.len() ==> (#[trigger] a[p]).spec_finished() == b[p].spec_finished(),
    ensures
        all_finished(a) == all_finished(b),
{
    if all_finished(a) {
        assert forall|p: int| 0 <= p < b.len() implies (#[trigger] b[p]).spec_finished() by {
            assert(a[p].spec_finished());
        }
    }
    if all_finished(b) {
        assert forall|p: int| 0 <= p < a.len() implies (#[trigger] a[p]).spec_finished() by {
            assert(b[p].spec_finished());
        }
    }
}

/// What each path found, path after path.
pub open spec fn path_results(paths: Seq<ClosestPeersIter>) -> Seq<Seq<u8>>
    decreases paths.len(),
{
    if paths.len() == 0 {
        Seq::empty()
    } else {
        up_to_len(
            succeeded_peers(paths[0].candidates()),
            paths[0].spec_config().num_results as nat,
        ) + path_results(paths.drop_first())
    }
}

/// The iterator of a lookup over disjoint paths.
pub struct ClosestDisjointPeersIter {
    config: ClosestPeersIterConfig,
    target: [u8; 32],
    iters: Vec<ClosestPeersIter>,
    iter_order: usize,
    assign: usize,
}

/// What one call of `next` does: from `o` to `n`, answering `r`.
pub open spec fn disjoint_next(o: ClosestDisjointPeersIter, n: ClosestDisjointPeersIter, r: PeersIterState) -> bool {
    &&& (n.paths().len() == o.paths().len())
    &&& (n.spec_config() == o.spec_config())
    &&& (n.spec_target() == o.spec_target())
    &&& (r is Finished <==> forall|p: int|
        0 <= p < n.paths().len() ==> (#[trigger] n.paths()[p]).spec_finished())
    &&& ((forall|p: int| 0 <= p < o.paths().len() ==> (#[trigger] o.paths()[p]).spec_finished())
        ==> r is Finished)
}

/// What `on_success` for `peer` does: from `o` to `n`, answering `r`.
pub open spec fn disjoint_on_success(o: ClosestDisjointPeersIter, n: ClosestDisjointPeersIter, peer: Seq<u8>, r: bool) -> bool {
    &&& (n.paths().len() == o.paths().len())
    &&& (n.spec_config() == o.spec_config())
    &&& (n.spec_target() == o.spec_target())
    &&& (forall|p: int|
        0 <= p < n.paths().len() ==> (#[trigger] n.paths()[p]).spec_finished()
            == o.paths()[p].spec_finished())
    &&& (r == paths_take_answer(o.paths(), peer))
    &&& (!r ==> same_paths(n.paths(), o.paths()))
}

/// What `on_failure` for `peer` does: from `o` to `n`, answering `r`.
pub open spec fn disjoint_on_failure(o: ClosestDisjointPeersIter, n: ClosestDisjointPeersIter, peer: Seq<u8>, r: bool) -> bool {
    &&& (n.paths().len() == o.paths().len())
    &&& (n.spec_config() == o.spec_config())
    &&& (n.spec_target() == o.spec_target())
    &&& (forall|p: int|
        0 <= p < n.paths().len() ==> (#[trigger] n.paths()[p]).spec_finished()
            == o.paths()[p].spec_finished())
    &&& (r == paths_take_answer(o.paths(), peer))
    &&& (!r ==> same_paths(n.paths(), o.paths()))
}

impl ClosestDisjointPeersIter {
    /// The paths.
    pub closed spec fn paths(&self) -> Seq<ClosestPeersIter> {
        self.iters@
    }

    pub closed spec fn spec_config(&self) -> ClosestPeersIterConfig {
        self.config
    }

    pub closed spec fn spec_target(&self) -> Seq<u8> {
        self.target@
    }

    /// The invariant: at least one path, all well-formed, for the same target and
    /// configuration.
    pub closed spec fn wf(&self) -> bool {
        &&& self.iters@.len() > 0
        &&& self.iter_order < self.iters@.len()
        &&& self.assign < self.iters@.len()
        &&& self.config.parallelism > 0
        &&& self.config.num_results > 0
        &&& forall|p: int|
            0 <= p < self.iters@.len() ==> {
                &&& (#[trigger] self.iters@[p]).wf()
                &&& self.iters@[p].spec_target() == self.target@
                &&& self.iters@[p].spec_config() == self.config
            }
    }

    /// Whether some path knows `peer`.
    fn knows(&self, peer: &PeerId) -> (r: bool)
        ensures
            r == exists|p: int| 0 <= p < self.paths().len() && (first_of(#[trigger] self.paths()[p].candidates(), peer@) is Some),
    {
        let mut p: usize = 0;
        while p < self.iters.len()
            invariant
                p <= self.iters@.len(),
                forall|q: int| 0 <= q < p ==> first_of(#[trigger] self.paths()[q].candidates(), peer@) is None,
            decreases self.iters.len() - p,
        {
            if self.iters[p].state_of(peer).is_some() {
                return true;
            }
            p = p + 1;
        }
        false
    }

    /// Takes path `p` out to work on it.
    fn take_path(&mut self, p: usize) -> (r: ClosestPeersIter)
        requires
            old(self).wf(),
            p < old(self).paths().len(),
        ensures
            r == old(self).paths()[p as int],
            r.wf(),
            r.spec_target() == old(self).target@,
            r.spec_config() == old(self).config,
            final(self).iters@ == old(self).iters@.remove(p as int),
            final(self).config == old(self).config,
            final(self).target == old(self).target,
            final(self).iter_order == old(self).iter_order,
            final(self).assign == old(self).assign,
    {
        self.iters.remove(p)
    }

    /// Puts a path back where it was taken from.
    fn put_path(&mut self, p: usize, it: ClosestPeersIter, Ghost(before): Ghost<Seq<ClosestPeersIter>>)
        requires
            p < before.len(),
            old(self).iters@ == before.remove(p as int),
            it.wf(),
            it.spec_target() == old(self).target@,
            it.spec_config() == old(self).config,
            forall|q: int|
                0 <= q < before.len() ==> {
                    &&& (#[trigger] before[q]).wf()
                    &&& before[q].spec_target() == old(self).target@
                    &&& before[q].spec_config() == old(self).config
                },
            old(self).iter_order < before.len(),
            old(self).assign < before.len(),
            old(self).config.parallelism > 0,
            old(self).config.num_results > 0,
        ensures
            final(self).wf(),
            final(self).paths() == before.update(p as int, it),
            final(self).config == old(self).config,
            final(self).target == old(self).target,
            final(self).iter_order == old(self).iter_order,
            final(self).assign == old(self).assign,
    {
        self.iters.insert(p, it);
        assert(self.iters@ =~= before.update(p as int, it));
    }

    /// Gives `key` to the path whose turn it is, and passes the turn on.
    fn deal(&mut self, key: Key, limit: Option<usize>)
        requires
            old(self).wf(),
            limit matches Some(k) ==> k > 0,
        ensures
            final(self).wf(),
            final(self).iters@.len() == old(self).iters@.len(),
            final(self).config == old(self).config,
            final(self).target == old(self).target,
            final(self).iter_order == old(self).iter_order,
            forall|q: int|
                0 <= q < final(self).paths().len() ==> (#[trigger] final(self).paths()[q]).spec_finished()
                    == old(self).paths()[q].spec_finished(),
    {
        let a = self.assign;
        let d = self.iters.len();
        let ghost before = self.iters@;
        let mut path = self.take_path(a);
        path.add_key(key, limit);
        self.put_path(a, path, Ghost(before));
        self.assign = if a + 1 < d { a + 1 } else { 0 };
        assert forall|q: int| 0 <= q < self.paths().len() implies (#[trigger] self.paths()[q]).spec_finished()
            == before[q].spec_finished() by {
            if q != a {
                assert(self.paths()[q] == before[q]);
            }
        }
    }

    /// Polls path `p`.
    fn poll_path(&mut self, p: usize, now: u64) -> (r: PeersIterState)
        requires
            old(self).wf(),
            p < old(self).paths().len(),
        ensures
            final(self).wf(),
            final(self).iters@.len() == old(self).iters@.len(),
            final(self).config == old(self).config,
            final(self).target == old(self).target,
            final(self).assign == old(self).assign,
            forall|q: int| 0 <= q < final(self).paths().len() && q != p ==> #[trigger] final(self).paths()[q] == old(self).paths()[q],
            r is Finished <==> final(self).paths()[p as int].spec_finished(),
            old(self).paths()[p as int].spec_finished() ==> final(self).paths()[p as int].spec_finished(),
    {
        let ghost before = self.iters@;
        let mut path = self.take_path(p);
        let state = path.next(now);
        self.put_path(p, path, Ghost(before));
        state
    }

    /// A lookup towards `target` over as many disjoint paths as the parallelism; the first
    /// [`K_VALUE`] known peers are dealt to the paths in turn.
    pub fn with_config(config: ClosestPeersIterConfig, target: [u8; 32], known_closest_peers: Vec<Key>) -> (r: Self)
        requires
            config.parallelism > 0,
            config.num_results > 0,
        ensures
            r.wf(),
            r.paths().len() == config.parallelism,
            r.spec_config() == config,
            r.spec_target() == target@,
            forall|p: int| 0 <= p < r.paths().len() ==> !(#[trigger] r.paths()[p]).spec_finished(),
    {
        let mut iters: Vec<ClosestPeersIter> = Vec::new();
        let mut p: usize = 0;
        while p < config.parallelism
            invariant
                p <= config.parallelism,
                iters@.len() == p,
                config.parallelism > 0,
                config.num_results > 0,
                forall|q: int|
                    0 <= q < p ==> {
                        &&& (#[trigger] iters@[q]).wf()
                        &&& iters@[q].spec_target() == target@
                        &&& iters@[q].spec_config() == config
                        &&& !iters@[q].spec_finished()
                    },
            decreases config.parallelism - p,
        {
            iters.push(ClosestPeersIter::with_config(config, target, Vec::new()));
            p = p + 1;
        }
        let mut it = ClosestDisjointPeersIter { config, target, iters, iter_order: 0, assign: 0 };
        let n: usize = if known_closest_peers.len() > K_VALUE { K_VALUE } else { known_closest_peers.len() };
        let mut j: usize = 0;
        while j < n
            invariant
                j <= n,
                n <= known_closest_peers@.len(),
                it.wf(),
                it.config == config,
                it.target == target,
                it.iters@.len() == config.parallelism,
                forall|q: int| 0 <= q < it.paths().len() ==> !(#[trigger] it.paths()[q]).spec_finished(),
            decreases n - j,
        {
            let key = known_closest_peers[j].duplicate();
            if !it.knows(key.preimage()) {
                it.deal(key, None);
            }
            j = j + 1;
        }
        it
    }

    /// Polls the paths in turn, starting one further at each call, until one has a peer to
    /// contact. Finished once every path is.
    pub fn next(&mut self, now: u64) -> (r: PeersIterState)
        requires
            old(self).wf(),
        ensures
            final(self).wf(),
            disjoint_next(*old(self), *final(self), r),
    {
        let d = self.iters.len();
        let start = self.iter_order;
        let mut result = PeersIterState::Finished;
        let mut p: usize = start;
        while p < d
            invariant
                start <= p <= d,
                d == self.iters@.len(),
                d == old(self).iters@.len(),
                forall|q: int| 0 <= q < d ==> ((#[trigger] old(self).paths()[q]).spec_finished() ==> self.paths()[q].spec_finished()),
                self.wf(),
                self.config == old(self).config,
                self.target == old(self).target,
                result is Finished <==> forall|q: int| start <= q < p ==> (#[trigger] self.paths()[q]).spec_finished(),
                !(result matches PeersIterState::Waiting(Some(_))),
            decreases d - p,
        {
            let ghost before = self.paths();
            let ghost was_finished = result is Finished;
            let state = self.poll_path(p, now);
            let done = matches!(state, PeersIterState::Finished);
            assert(done == self.paths()[p as int].spec_finished());
            match state {
                PeersIterState::Waiting(Some(peer)) => {
                    self.iter_order = if p + 1 < d { p + 1 } else { 0 };
                    assert(!self.paths()[p as int].spec_finished());
                    assert(!old(self).paths()[p as int].spec_finished());
                    return PeersIterState::Waiting(Some(peer));
                },
                PeersIterState::Waiting(None) => {
                    result = PeersIterState::Waiting(None);
                },
                PeersIterState::WaitingAtCapacity => {
                    if let PeersIterState::Finished = result {
                        result = PeersIterState::WaitingAtCapacity;
                    }
                },
                PeersIterState::Finished => {},
            }
            assert forall|q: int| start <= q < p implies (#[trigger] self.paths()[q]) == before[q] by {}
            assert((result is Finished) == (was_finished && done));
            proof {
                if result is Finished {
                    assert forall|q: int| start <= q < p + 1 implies (#[trigger] self.paths()[q]).spec_finished() by {
                        if q < p {
                            assert(before[q].spec_finished());
                        }
                    }
                } else if !was_finished {
                    let q = choose|q: int| start <= q < p && !(#[trigger] before[q]).spec_finished();
                    assert(!self.paths()[q].spec_finished());
                } else {
                    assert(!self.paths()[p as int].spec_finished());
                }
            }
            p = p + 1;
        }
        let mut p: usize = 0;
        while p < start
            invariant
                p <= start,
                start < d,
                d == self.iters@.len(),
                d == old(self).iters@.len(),
                forall|q: int| 0 <= q < d ==> ((#[trigger] old(self).paths()[q]).spec_finished() ==> self.paths()[q].spec_finished()),
                self.wf(),
                self.config == old(self).config,
                self.target == old(self).target,
                result is Finished <==> (forall|q: int| start <= q < d ==> (#[trigger] self.paths()[q]).spec_finished())
                    && (forall|q: int| 0 <= q < p ==> (#[trigger] self.paths()[q]).spec_finished()),
                !(result matches PeersIterState::Waiting(Some(_))),
            decreases start - p,
        {
            let ghost before = self.paths();
            let ghost was_finished = result is Finished;
            let state = self.poll_path(p, now);
            let done = matches!(state, PeersIterState::Finished);
            assert(done == self.paths()[p as int].spec_finished());
            match state {
                PeersIterState::Waiting(Some(peer)) => {
                    self.iter_order = p + 1;
                    assert(!self.paths()[p as int].spec_finished());
                    assert(!old(self).paths()[p as int].spec_finished());
                    return PeersIterState::Waiting(Some(peer));
                },
                PeersIterState::Waiting(None) => {
                    result = PeersIterState::Waiting(None);
                },
                PeersIterState::WaitingAtCapacity => {
                    if let PeersIterState::Finished = result {
                        result = PeersIterState::WaitingAtCapacity;
                    }
                },
                PeersIterState::Finished => {},
            }
            assert forall|q: int| (start <= q < d || 0 <= q < p) implies (#[trigger] self.paths()[q]) == before[q] by {}
            assert((result is Finished) == (was_finished && done));
            proof {
                if result is Finished {
                    assert forall|q: int| 0 <= q < p + 1 implies (#[trigger] self.paths()[q]).spec_finished() by {
                        if q < p {
                            assert(before[q].spec_finished());
                        }
                    }
                    assert forall|q: int| start <= q < d implies (#[trigger] self.paths()[q]).spec_finished() by {
                        assert(before[q].spec_finished());
                    }
                } else if !was_finished {
                    if forall|q: int| start <= q < d ==> (#[trigger] before[q]).spec_finished() {
                        let q = choose|q: int| 0 <= q < p && !(#[trigger] before[q]).spec_finished();
                        assert(!self.paths()[q].spec_finished());
                    } else {
                        let q = choose|q: int| start <= q < d && !(#[trigger] before[q]).spec_finished();
                        assert(!self.paths()[q].spec_finished());
                    }
                } else {
                    assert(!self.paths()[p as int].spec_finished());
                }
            }
            p = p + 1;
        }
        assert(p == start);
        proof {
            if result is Finished {
                assert forall|q: int| 0 <= q < d implies (#[trigger] self.paths()[q]).spec_finished() by {
                    if q < start {
                        assert(self.paths()[q].spec_finished());
                    } else {
                        assert(self.paths()[q].spec_finished());
                    }
                }
            } else {
                if forall|q: int| start <= q < d ==> (#[trigger] self.paths()[q]).spec_finished() {
                    let q = choose|q: int| 0 <= q < start && !(#[trigger] self.paths()[q]).spec_finished();
                    assert(!self.paths()[q].spec_finished());
                } else {
                    let q = choose|q: int| start <= q < d && !(#[trigger] self.paths()[q]).spec_finished();
                    assert(!self.paths()[q].spec_finished());
                }
            }
        }
        let ghost fin = self.paths();
        self.iter_order = if start + 1 < d { start + 1 } else { 0 };
        assert(self.paths() == fin);
        assert(result is Finished <==> forall|q: int| 0 <= q < d ==> (#[trigger] fin[q]).spec_finished());
        assert(forall|q: int| 0 <= q < d ==> ((#[trigger] old(self).paths()[q]).spec_finished() ==> fin[q].spec_finished()));
        proof {
            if forall|q: int| 0 <= q < old(self).paths().len() ==> (#[trigger] old(self).paths()[q]).spec_finished() {
                assert forall|q: int| 0 <= q < d implies (#[trigger] fin[q]).spec_finished() by {
                    assert(old(self).paths()[q].spec_finished());
                }
            }
        }
        result
    }

    /// The first path that knows `peer`, if any.
    fn path_of(&self, peer: &PeerId) -> (r: Option<usize>)
        ensures
            match r {
                Some(p) => p < self.paths().len() && first_of(self.paths()[p as int].candidates(), peer@) is Some
                    && first_path_of(self.paths(), peer@) == Some(p as int),
                None => forall|p: int| 0 <= p < self.paths().len() ==> first_of(#[trigger] self.paths()[p].candidates(), peer@) is None,
            },
            r is None <==> first_path_of(self.paths(), peer@) is None,
    {
        let mut p: usize = 0;
        while p < self.iters.len()
            invariant
                p <= self.iters@.len(),
                forall|q: int| 0 <= q < p ==> first_of(#[trigger] self.paths()[q].candidates(), peer@) is None,
            decreases self.iters.len() - p,
        {
            if self.iters[p].state_of(peer).is_some() {
                proof {
                    reveal(first_path_of);
                    let paths = self.paths();
                    assert(first_of(paths[p as int].candidates(), peer@) is Some);
                    let c = choose|c: int|
                        0 <= c < paths.len() && (first_of(#[trigger] paths[c].candidates(), peer@) is Some)
                            && forall|q: int| 0 <= q < c ==> first_of(paths[q].candidates(), peer@) is None;
                    if c < p {
                        assert(first_of(paths[c].candidates(), peer@) is None);
                    } else if c > p {
                        assert(first_of(paths[p as int].candidates(), peer@) is None);
                    }
                }
                return Some(p);
            }
            p = p + 1;
        }
        proof {
            reveal(first_path_of);
        }
        None
    }

    /// Records that `peer` answered on the path that knows it, and deals the peers it named
    /// that no path knows to the paths in turn. Returns whether the answer was taken.
    pub fn on_success(&mut self, peer: &PeerId, closer_peers: Vec<Key>) -> (r: bool)
        requires
            old(self).wf(),
        ensures
            final(self).wf(),
            disjoint_on_success(*old(self), *final(self), peer@, r),
    {
        let p = match self.path_of(peer) {
            Some(p) => p,
            None => {
                return false;
            },
        };
        let ghost before = self.iters@;
        let mut path = self.take_path(p);
        let taken = path.on_success(peer, Vec::new());
        self.put_path(p, path, Ghost(before));
        if !taken {
            assert(same_paths(self.paths(), before)) by {
                assert forall|q: int| 0 <= q < before.len() implies (#[trigger] self.paths()[q]).candidates()
                    == before[q].candidates() by {
                    if q != p {
                        assert(self.paths()[q] == before[q]);
                    }
                }
            }
            assert(!takes_answer(before[p as int], peer@));
            return false;
        }
        assert(takes_answer(before[p as int], peer@));
        let mut j: usize = 0;
        while j < closer_peers.len()
            invariant
                j <= closer_peers@.len(),
                self.wf(),
                self.iters@.len() == old(self).iters@.len(),
                self.config == old(self).config,
                self.target == old(self).target,
                paths_take_answer(old(self).paths(), peer@),
                forall|q: int|
                    0 <= q < self.paths().len() ==> (#[trigger] self.paths()[q]).spec_finished()
                        == old(self).paths()[q].spec_finished(),
            decreases closer_peers.len() - j,
        {
            let key = closer_peers[j].duplicate();
            if !self.knows(key.preimage()) {
                self.deal(key, Some(self.config.num_results));
            }
            j = j + 1;
        }
        true
    }

    /// Records that the request to `peer` failed, on the path that knows it. Returns whether
    /// that was taken.
    pub fn on_failure(&mut self, peer: &PeerId) -> (r: bool)
        requires
            old(self).wf(),
        ensures
            final(self).wf(),
            disjoint_on_failure(*old(self), *final(self), peer@, r),
    {
        let p = match self.path_of(peer) {
            Some(p) => p,
            None => {
                return false;
            },
        };
        let ghost before = self.iters@;
        let mut path = self.take_path(p);
        let taken = path.on_failure(peer);
        self.put_path(p, path, Ghost(before));
        if !taken {
            assert(same_paths(self.paths(), before)) by {
                assert forall|q: int| 0 <= q < before.len() implies (#[trigger] self.paths()[q]).candidates()
                    == before[q].candidates() by {
                    if q != p {
                        assert(self.paths()[q] == before[q]);
                    }
                }
            }
            assert(!takes_answer(before[p as int], peer@));
        } else {
            assert(takes_answer(before[p as int], peer@));
        }
        taken
    }

    /// Ends every path.
    pub fn finish(&mut self)
        requires
            old(self).wf(),
        ensures
            final(self).wf(),
            final(self).paths().len() == old(self).paths().len(),
            final(self).spec_config() == old(self).spec_config(),
            final(self).spec_target() == old(self).spec_target(),
            forall|p: int| 0 <= p < final(self).paths().len() ==> (#[trigger] final(self).paths()[p]).spec_finished(),
    {
        let mut p: usize = 0;
        while p < self.iters.len()
            invariant
                p <= self.iters@.len(),
                self.wf(),
                self.iters@.len() == old(self).iters@.len(),
                self.config == old(self).config,
                self.target == old(self).target,
                forall|q: int| 0 <= q < p ==> (#[trigger] self.paths()[q]).spec_finished(),
            decreases self.iters.len() - p,
        {
            let ghost before = self.iters@;
            let mut path = self.take_path(p);
            path.finish();
            self.put_path(p, path, Ghost(before));
            assert forall|q: int| 0 <= q < p + 1 implies (#[trigger] self.paths()[q]).spec_finished() by {
                if q < p {
                    assert(self.paths()[q] == before[q]);
                }
            }
            p = p + 1;
        }
    }

    /// Whether every path has ended.
    pub fn is_finished(&self) -> (r: bool)
        ensures
            r == forall|p: int| 0 <= p < self.paths().len() ==> (#[trigger] self.paths()[p]).spec_finished(),
    {
        let mut p: usize = 0;
        while p < self.iters.len()
            invariant
                p <= self.iters@.len(),
                forall|q: int| 0 <= q < p ==> (#[trigger] self.paths()[q]).spec_finished(),
            decreases self.iters.len() - p,
        {
            if !self.iters[p].is_finished() {
                assert(!self.paths()[p as int].spec_finished());
                return false;
            }
            p = p + 1;
        }
        true
    }

    /// Whether path `p` has settled with one of `peers`.
    fn path_settled(&self, p: usize, peers: &Vec<PeerId>) -> (r: bool)
        requires
            p < self.paths().len(),
        ensures
            r == settled_with_any(self.paths()[p as int], peers@),
    {
        let mut k: usize = 0;
        while k < peers.len()
            invariant
                k <= peers@.len(),
                p < self.paths().len(),
                forall|m: int| 0 <= m < k ==> !settled_with(self.paths()[p as int], #[trigger] peers@[m]@),
            decreases peers.len() - k,
        {
            match self.iters[p].state_of(&peers[k]) {
                Some(PeerState::Succeeded) | Some(PeerState::Failed) | Some(PeerState::Unresponsive) => {
                    return true;
                },
                _ => {},
            }
            k = k + 1;
        }
        false
    }

    /// Finishes the lookup where every path has settled with one of `peers`: each path then
    /// reached a stopping condition. Returns whether it finished.
    pub fn finish_paths(&mut self, peers: &Vec<PeerId>) -> (r: bool)
        requires
            old(self).wf(),
        ensures
            final(self).wf(),
            final(self).paths().len() == old(self).paths().len(),
            final(self).spec_config() == old(self).spec_config(),
            final(self).spec_target() == old(self).spec_target(),
            r == forall|p: int|
                0 <= p < old(self).paths().len() ==> settled_with_any(#[trigger] old(self).paths()[p], peers@),
            r ==> forall|p: int| 0 <= p < final(self).paths().len() ==> (#[trigger] final(self).paths()[p]).spec_finished(),
            !r ==> same_paths(final(self).paths(), old(self).paths()),
    {
        let mut p: usize = 0;
        while p < self.iters.len()
            invariant
                p <= self.iters@.len(),
                *self == *old(self),
                self.wf(),
                forall|q: int| 0 <= q < p ==> settled_with_any(#[trigger] old(self).paths()[q], peers@),
            decreases self.iters.len() - p,
        {
            if !self.path_settled(p, peers) {
                assert(!settled_with_any(old(self).paths()[p as int], peers@));
                assert(same_paths(self.paths(), old(self).paths()));
                return false;
            }
            p = p + 1;
        }
        self.finish();
        true
    }

    /// The peers each path found, path after path, consuming the iterator.
    pub fn into_result(self) -> (r: Vec<PeerId>)
        ensures
            r@.map_values(|p: PeerId| p@) == path_results(self.paths()),
    {
        let ghost all = self.iters@;
        let mut iters = self.iters;
        let mut out: Vec<PeerId> = Vec::new();
        assert(out@.map_values(|p: PeerId| p@) + path_results(iters@) =~= path_results(all));
        while iters.len() > 0
            invariant
                out@.map_values(|p: PeerId| p@) + path_results(iters@) == path_results(all),
            decreases iters.len(),
        {
            let ghost rest = iters@;
            let it = iters.remove(0);
            assert(iters@ =~= rest.drop_first());
            let mut found = it.into_result();
            let ghost before = out@.map_values(|p: PeerId| p@);
            let ghost got = found@.map_values(|p: PeerId| p@);
            out.append(&mut found);
            assert(out@.map_values(|p: PeerId| p@) =~= before + got);
            assert(before + got + path_results(iters@) =~= before + path_results(rest));
        }
        assert(path_results(iters@) =~= Seq::<Seq<u8>>::empty());
        assert(out@.map_values(|p: PeerId| p@) =~= path_results(all));
        out
    }
}

} // verus!
