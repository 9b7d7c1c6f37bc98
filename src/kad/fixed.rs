//! The fixed-peers iterator: contacts a set of peers given up front, a bounded number at a
//! time, and learns no new ones.

use vstd::prelude::*;

use crate::kad::closest::PeersIterState;
use crate::peer::PeerId;

verus! {

/// The state of a contacted peer.
#[derive(Debug, Clone, Copy, PartialEq, Eq, Structural)]
pub enum FixedPeerState {
    /// A request is in flight.
    Waiting,
    /// The request failed.
    Failed,
    /// The peer answered.
    Succeeded,
}

/// How many contacted peers are waited for.
pub open spec fn fixed_waiting_count(s: Seq<(Seq<u8>, FixedPeerState)>) -> nat
    decreases s.len(),
{
    if s.len() == 0 {
        0
    } else {
        fixed_waiting_count(s.drop_last()) + if s.last().1 == FixedPeerState::Waiting {
            1nat
        } else {
            0nat
        }
    }
}

/// Whether `peer` was contacted.
pub open spec fn was_contacted(contacted: Seq<(Seq<u8>, FixedPeerState)>, peer: Seq<u8>) -> bool {
    exists|i: int| 0 <= i < contacted.len() && #[trigger] contacted[i].0 == peer
}

/// The first position from `j` on of a peer not contacted yet, or the end.
pub open spec fn next_fresh(
    peers: Seq<Seq<u8>>,
    j: int,
    contacted: Seq<(Seq<u8>, FixedPeerState)>,
) -> int
    decreases peers.len() - j,
{
    if j < 0 || j >= peers.len() {
        peers.len() as int
    } else if was_contacted(contacted, peers[j]) {
        next_fresh(peers, j + 1, contacted)
    } else {
        j
    }
}

/// The peers that answered, in the order they were contacted.
pub open spec fn fixed_succeeded(s: Seq<(Seq<u8>, FixedPeerState)>) -> Seq<Seq<u8>>
    decreases s.len(),
{
    if s.len() == 0 {
        Seq::empty()
    } else if s.last().1 == FixedPeerState::Succeeded {
        fixed_succeeded(s.drop_last()).push(s.last().0)
    } else {
        fixed_succeeded(s.drop_last())
    }
}

proof fn lemma_fixed_count_push(s: Seq<(Seq<u8>, FixedPeerState)>, x: (Seq<u8>, FixedPeerState))
    ensures
        fixed_waiting_count(s.push(x)) == fixed_waiting_count(s) + if x.1 == FixedPeerState::Waiting {
            1nat
        } else {
            0nat
        },
{
    assert(s.push(x).drop_last() =~= s);
}

proof fn lemma_fixed_count_update(s: Seq<(Seq<u8>, FixedPeerState)>, i: int, st: FixedPeerState)
    requires
        0 <= i < s.len(),
    ensures
        fixed_waiting_count(s.update(i, (s[i].0, st))) + (if s[i].1 == FixedPeerState::Waiting {
            1int
        } else {
            0int
        }) == fixed_waiting_count(s) + (if st == FixedPeerState::Waiting {
            1int
        } else {
            0int
        }),
    decreases s.len(),
{
    let t = s.update(i, (s[i].0, st));
    if i == s.len() - 1 {
        assert(t.drop_last() =~= s.drop_last());
    } else {
        assert(t.drop_last() =~= s.drop_last().update(i, (s[i].0, st)));
        lemma_fixed_count_update(s.drop_last(), i, st);
    }
}

/// The iterator over a fixed set of peers.
pub struct FixedPeersIter {
    parallelism: usize,
    peers: Vec<PeerId>,
    cursor: usize,
    contacted: Vec<(PeerId, FixedPeerState)>,
    finished: bool,
    num_waiting: usize,
}

/// What one call of `next` does: from `o` to `n`, answering `r`.
pub open spec fn fixed_next(o: FixedPeersIter, n: FixedPeersIter, r: PeersIterState) -> bool {
    &&& (n.spec_peers() == o.spec_peers())
    &&& (n.spec_parallelism() == o.spec_parallelism())
    &&& (o.spec_finished() ==> r is Finished && n == o)
    &&& (!o.spec_finished() && o.spec_num_waiting() >= o.spec_parallelism()
        ==> r is WaitingAtCapacity && n == o)
    &&& (!o.spec_finished() && o.spec_num_waiting() < o.spec_parallelism()
        ==> ({
        let j = next_fresh(o.spec_peers(), o.spec_cursor(), o.spec_contacted());
        if j < o.spec_peers().len() {
            &&& r matches PeersIterState::Waiting(Some(p)) && p@ == o.spec_peers()[j]
            &&& n.spec_contacted() == o.spec_contacted().push(
                (o.spec_peers()[j], FixedPeerState::Waiting),
            )
            &&& n.spec_cursor() == j + 1
            &&& !n.spec_finished()
        } else {
            &&& n.spec_contacted() == o.spec_contacted()
            &&& n.spec_cursor() == j
            &&& if o.spec_num_waiting() == 0 {
                r is Finished && n.spec_finished()
            } else {
                r matches PeersIterState::Waiting(None) && !n.spec_finished()
            }
        }
    }))
}

/// What `on_success` for `peer` does: from `o` to `n`, answering `r`.
pub open spec fn fixed_on_success(o: FixedPeersIter, n: FixedPeersIter, peer: Seq<u8>, r: bool) -> bool {
    &&& (n.spec_peers() == o.spec_peers())
    &&& (n.spec_cursor() == o.spec_cursor())
    &&& (n.spec_parallelism() == o.spec_parallelism())
    &&& (n.spec_finished() == o.spec_finished())
    &&& (r == (!o.spec_finished() && exists|i: int|
        0 <= i < o.spec_contacted().len() && #[trigger] o.spec_contacted()[i]
            == (peer, FixedPeerState::Waiting)))
    &&& (r ==> exists|i: int|
        0 <= i < o.spec_contacted().len() && o.spec_contacted()[i] == (peer, FixedPeerState::Waiting)
            && n.spec_contacted() == o.spec_contacted().update(i, (peer, FixedPeerState::Succeeded)))
    &&& (!r ==> n.spec_contacted() == o.spec_contacted())
}

/// What `on_failure` for `peer` does: from `o` to `n`, answering `r`.
pub open spec fn fixed_on_failure(o: FixedPeersIter, n: FixedPeersIter, peer: Seq<u8>, r: bool) -> bool {
    &&& (n.spec_peers() == o.spec_peers())
    &&& (n.spec_cursor() == o.spec_cursor())
    &&& (n.spec_parallelism() == o.spec_parallelism())
    &&& (n.spec_finished() == o.spec_finished())
    &&& (r == (!o.spec_finished() && exists|i: int|
        0 <= i < o.spec_contacted().len() && #[trigger] o.spec_contacted()[i]
            == (peer, FixedPeerState::Waiting)))
    &&& (r ==> exists|i: int|
        0 <= i < o.spec_contacted().len() && o.spec_contacted()[i] == (peer, FixedPeerState::Waiting)
            && n.spec_contacted() == o.spec_contacted().update(i, (peer, FixedPeerState::Failed)))
    &&& (!r ==> n.spec_contacted() == o.spec_contacted())
}

impl FixedPeersIter {
    /// The peers given, in order.
    pub closed spec fn spec_peers(&self) -> Seq<Seq<u8>> {
        self.peers@.map_values(|p: PeerId| p@)
    }

    /// How far the given peers have been gone through.
    pub closed spec fn spec_cursor(&self) -> int {
        self.cursor as int
    }

    /// The contacted peers and their states, in the order they were contacted.
    pub closed spec fn spec_contacted(&self) -> Seq<(Seq<u8>, FixedPeerState)> {
        self.contacted@.map_values(|c: (PeerId, FixedPeerState)| (c.0@, c.1))
    }

    pub closed spec fn spec_parallelism(&self) -> nat {
        self.parallelism as nat
    }

    pub closed spec fn spec_finished(&self) -> bool {
        self.finished
    }

    pub closed spec fn spec_num_waiting(&self) -> nat {
        self.num_waiting as nat
    }

    /// The invariant: the in-flight count is exact and within the parallelism, and no peer is
    /// contacted twice.
    pub closed spec fn wf(&self) -> bool {
        &&& self.parallelism > 0
        &&& self.cursor <= self.peers@.len()
        &&& self.num_waiting == fixed_waiting_count(self.spec_contacted())
        &&& self.num_waiting <= self.parallelism
        &&& forall|i: int, j: int|
            0 <= i < j < self.spec_contacted().len() ==> #[trigger] self.spec_contacted()[i].0
                != #[trigger] self.spec_contacted()[j].0
    }

    /// An iterator that contacts `peers`, at most `parallelism` at a time.
    pub fn new(peers: Vec<PeerId>, parallelism: usize) -> (r: Self)
        requires
            parallelism > 0,
        ensures
            r.wf(),
            r.spec_peers() == peers@.map_values(|p: PeerId| p@),
            r.spec_cursor() == 0,
            r.spec_contacted().len() == 0,
            r.spec_parallelism() == parallelism,
            !r.spec_finished(),
    {
        let r = FixedPeersIter {
            parallelism,
            peers,
            cursor: 0,
            contacted: Vec::new(),
            finished: false,
            num_waiting: 0,
        };
        assert(r.spec_contacted() =~= Seq::<(Seq<u8>, FixedPeerState)>::empty());
        r
    }

    fn position(&self, peer: &PeerId) -> (r: Option<usize>)
        ensures
            match r {
                Some(i) => i < self.spec_contacted().len() && self.spec_contacted()[i as int].0 == peer@,
                None => !was_contacted(self.spec_contacted(), peer@),
            },
    {
        let ghost c = self.spec_contacted();
        let mut i: usize = 0;
        while i < self.contacted.len()
            invariant
                i <= self.contacted@.len(),
                c == self.spec_contacted(),
                forall|j: int| 0 <= j < i ==> #[trigger] c[j].0 != peer@,
            decreases self.contacted.len() - i,
        {
            assert(c[i as int].0 == self.contacted@[i as int].0@);
            if self.contacted[i].0.same_as(peer) {
                return Some(i);
            }
            i = i + 1;
        }
        None
    }

    /// Picks the next peer to contact, or says why there is none.
    pub fn next(&mut self) -> (r: PeersIterState)
        requires
            old(self).wf(),
        ensures
            final(self).wf(),
            fixed_next(*old(self), *final(self), r),
    {
        if self.finished {
            return PeersIterState::Finished;
        }
        if self.num_waiting >= self.parallelism {
            return PeersIterState::WaitingAtCapacity;
        }
        let ghost c = self.spec_contacted();
        let ghost ps = self.spec_peers();
        let ghost j0 = next_fresh(ps, self.cursor as int, c);
        while self.cursor < self.peers.len()
            invariant
                self.cursor <= self.peers@.len(),
                self.wf(),
                !self.finished,
                !old(self).finished,
                old(self).num_waiting < old(self).parallelism,
                old(self).wf(),
                c == old(self).spec_contacted(),
                ps == old(self).spec_peers(),
                self.num_waiting < self.parallelism,
                c == self.spec_contacted(),
                ps == self.spec_peers(),
                self.peers == old(self).peers,
                self.parallelism == old(self).parallelism,
                self.num_waiting == old(self).num_waiting,
                self.contacted == old(self).contacted,
                j0 == next_fresh(ps, self.cursor as int, c),
                j0 == next_fresh(ps, old(self).cursor as int, c),
            decreases self.peers.len() - self.cursor,
        {
            let i = self.cursor;
            assert(ps[i as int] == self.peers@[i as int]@);
            let p = self.peers[i].duplicate();
            self.cursor = i + 1;
            if self.position(&p).is_none() {
                assert(j0 == i);
                let ghost before = self.contacted@;
                self.contacted.push((p, FixedPeerState::Waiting));
                proof {
                    assert(self.spec_contacted() =~= c.push((ps[i as int], FixedPeerState::Waiting)));
                    lemma_fixed_count_push(c, (ps[i as int], FixedPeerState::Waiting));
                    assert forall|a: int, b: int|
                        0 <= a < b < self.spec_contacted().len() implies #[trigger] self.spec_contacted()[a].0
                        != #[trigger] self.spec_contacted()[b].0 by {
                        if b == c.len() {
                            assert(self.spec_contacted()[a] == c[a]);
                        } else {
                            assert(self.spec_contacted()[a] == c[a] && self.spec_contacted()[b] == c[b]);
                        }
                    }
                }
                self.num_waiting = self.num_waiting + 1;
                let q = self.contacted[self.contacted.len() - 1].0.duplicate();
                assert(self.spec_contacted()[c.len() as int].0 == ps[i as int]);
                assert(self.contacted@[c.len() as int].0@ == self.spec_contacted()[c.len() as int].0);
                assert(self.contacted@.len() == c.len() + 1);
                assert(q@ == ps[j0]);
                return PeersIterState::Waiting(Some(q));
            }
        }
        if self.num_waiting == 0 {
            self.finished = true;
            PeersIterState::Finished
        } else {
            PeersIterState::Waiting(None)
        }
    }

    fn settle(&mut self, peer: &PeerId, outcome: FixedPeerState) -> (r: bool)
        requires
            old(self).wf(),
            outcome != FixedPeerState::Waiting,
        ensures
            final(self).wf(),
            final(self).spec_peers() == old(self).spec_peers(),
            final(self).spec_cursor() == old(self).spec_cursor(),
            final(self).spec_parallelism() == old(self).spec_parallelism(),
            final(self).spec_finished() == old(self).spec_finished(),
            r == (!old(self).spec_finished() && exists|i: int|
                0 <= i < old(self).spec_contacted().len() && #[trigger] old(self).spec_contacted()[i]
                    == (peer@, FixedPeerState::Waiting)),
            r ==> exists|i: int|
                0 <= i < old(self).spec_contacted().len() && old(self).spec_contacted()[i] == (
                peer@,
                FixedPeerState::Waiting,
            ) && final(self).spec_contacted() == old(self).spec_contacted().update(i, (peer@, outcome)),
            !r ==> final(self).spec_contacted() == old(self).spec_contacted(),
    {
        let ghost c = self.spec_contacted();
        if self.finished {
            return false;
        }
        match self.position(peer) {
            Some(i) => {
                if self.contacted[i].1 == FixedPeerState::Waiting {
                    let (p, _) = self.contacted.remove(i);
                    self.contacted.insert(i, (p, outcome));
                    proof {
                        assert(self.spec_contacted() =~= c.update(i as int, (peer@, outcome)));
                        lemma_fixed_count_update(c, i as int, outcome);
                        assert forall|a: int, b: int|
                            0 <= a < b < self.spec_contacted().len() implies #[trigger] self.spec_contacted()[a].0
                            != #[trigger] self.spec_contacted()[b].0 by {
                            assert(self.spec_contacted()[a].0 == c[a].0 && self.spec_contacted()[b].0 == c[b].0);
                        }
                    }
                    self.num_waiting = self.num_waiting - 1;
                    true
                } else {
                    proof {
                        assert forall|k: int| 0 <= k < c.len() implies #[trigger] c[k] != (peer@, FixedPeerState::Waiting) by {
                            if k != i && c[k].0 == peer@ {
                                if k < i {
                                    assert(c[k].0 != c[i as int].0);
                                } else {
                                    assert(c[i as int].0 != c[k].0);
                                }
                            }
                        }
                    }
                    false
                }
            },
            None => {
                proof {
                    assert forall|k: int| 0 <= k < c.len() implies #[trigger] c[k] != (peer@, FixedPeerState::Waiting) by {
                        if c[k] == (peer@, FixedPeerState::Waiting) {
                            assert(c[k].0 == peer@);
                            assert(was_contacted(c, peer@));
                        }
                    }
                }
                false
            },
        }
    }

    /// Records that `peer` answered. Returns whether a request to it was in flight.
    pub fn on_success(&mut self, peer: &PeerId) -> (r: bool)
        requires
            old(self).wf(),
        ensures
            final(self).wf(),
            fixed_on_success(*old(self), *final(self), peer@, r),
    {
        self.settle(peer, FixedPeerState::Succeeded)
    }

    /// Records that the request to `peer` failed. Returns whether a request to it was in
    /// flight.
    pub fn on_failure(&mut self, peer: &PeerId) -> (r: bool)
        requires
            old(self).wf(),
        ensures
            final(self).wf(),
            fixed_on_failure(*old(self), *final(self), peer@, r),
    {
        self.settle(peer, FixedPeerState::Failed)
    }

    /// Ends the iteration.
    pub fn finish(&mut self)
        requires
            old(self).wf(),
        ensures
            final(self).wf(),
            final(self).spec_finished(),
            final(self).spec_contacted() == old(self).spec_contacted(),
            final(self).spec_peers() == old(self).spec_peers(),
            final(self).spec_parallelism() == old(self).spec_parallelism(),
    {
        self.finished = true;
    }

    /// Whether the iteration has ended.
    pub fn is_finished(&self) -> (r: bool)
        ensures
            r == self.spec_finished(),
    {
        self.finished
    }

    /// The peers that answered, in the order they were contacted.
    pub fn into_result(self) -> (r: Vec<PeerId>)
        ensures
            r@.map_values(|p: PeerId| p@) == fixed_succeeded(self.spec_contacted()),
    {
        let ghost c = self.spec_contacted();
        let mut out: Vec<PeerId> = Vec::new();
        let mut i: usize = 0;
        while i < self.contacted.len()
            invariant
                i <= self.contacted@.len(),
                c == self.spec_contacted(),
                out@.map_values(|p: PeerId| p@) == fixed_succeeded(c.take(i as int)),
            decreases self.contacted.len() - i,
        {
            assert(c.take(i + 1) =~= c.take(i as int).push(c[i as int]));
            assert(c.take(i + 1).drop_last() =~= c.take(i as int));
            assert(c[i as int] == (self.contacted@[i as int].0@, self.contacted@[i as int].1));
            if self.contacted[i].1 == FixedPeerState::Succeeded {
                let ghost before = out@.map_values(|p: PeerId| p@);
                out.push(self.contacted[i].0.duplicate());
                assert(out@.map_values(|p: PeerId| p@) =~= before.push(c[i as int].0));
            }
            i = i + 1;
        }
        assert(c.take(i as int) =~= c);
        out
    }
}

} // verus!
