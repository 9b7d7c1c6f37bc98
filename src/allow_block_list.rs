//! Allow and block lists: admission control for connections, with close orders
//! for peers that lose their admission.

use vstd::prelude::*;

use crate::peer::{position_of, PeerId};

verus! {

#[verifier::external_type_specification]
#[verifier::external_body]
pub struct ExWaker(std::task::Waker);

/// Relies on `std::task::Waker::wake`: rouses the task that registered the handle.
#[verifier::external_body]
fn wake(waker: std::task::Waker) {
    waker.wake()
}

/// Relies on `std::task::Waker::clone`: a second handle on the same task.
#[verifier::external_body]
fn clone_waker(waker: &std::task::Waker) -> std::task::Waker {
    waker.clone()
}

/// The identifiers held by a sequence of peers, as a set.
pub open spec fn peer_set(peers: Seq<PeerId>) -> Set<Seq<u8>> {
    Set::new(|b: Seq<u8>| exists|i: int| 0 <= i < peers.len() && #[trigger] peers[i]@ == b)
}

/// No identifier occurs twice.
pub open spec fn distinct_peers(peers: Seq<PeerId>) -> bool {
    forall|i: int, j: int|
        0 <= i < peers.len() && 0 <= j < peers.len() && i != j ==> #[trigger] peers[i]@
            != #[trigger] peers[j]@
}

/// The observable state of a gate: the listed peers and the pending close orders, oldest first.
pub struct GateModel {
    pub listed: Set<Seq<u8>>,
    pub closing: Seq<Seq<u8>>,
}

/// The state once `p` enters the list; a close order is queued when `close_if_new` and `p` was
/// not listed yet.
pub open spec fn with_listed(m: GateModel, p: Seq<u8>, close_if_new: bool) -> GateModel {
    GateModel {
        listed: m.listed.insert(p),
        closing: if close_if_new && !m.listed.contains(p) {
            m.closing.push(p)
        } else {
            m.closing
        },
    }
}

/// The state once `p` leaves the list; a close order is queued when `close_if_present` and `p`
/// was listed.
pub open spec fn without_listed(m: GateModel, p: Seq<u8>, close_if_present: bool) -> GateModel {
    GateModel {
        listed: m.listed.remove(p),
        closing: if close_if_present && m.listed.contains(p) {
            m.closing.push(p)
        } else {
            m.closing
        },
    }
}

/// Whether a gate in block mode admits `p`.
pub open spec fn block_mode_admits(m: GateModel, p: Seq<u8>) -> bool {
    !m.listed.contains(p)
}

/// Whether a gate in allow mode admits `p`.
pub open spec fn allow_mode_admits(m: GateModel, p: Seq<u8>) -> bool {
    m.listed.contains(p)
}

/// A set of peers without repetition.
struct PeerList {
    peers: Vec<PeerId>,
}

impl PeerList {
    spec fn wf(&self) -> bool {
        distinct_peers(self.peers@)
    }

    spec fn set(&self) -> Set<Seq<u8>> {
        peer_set(self.peers@)
    }

    fn new() -> (r: PeerList)
        ensures
            r.wf(),
            r.set() == Set::<Seq<u8>>::empty(),
    {
        let r = PeerList { peers: Vec::new() };
        assert(r.set() =~= Set::<Seq<u8>>::empty());
        r
    }

    fn contains(&self, peer: &PeerId) -> (r: bool)
        ensures
            r == self.set().contains(peer@),
    {
        match position_of(&self.peers, peer) {
            Some(i) => {
                assert(self.peers@[i as int]@ == peer@);
                true
            },
            None => false,
        }
    }

    fn insert(&mut self, peer: PeerId) -> (r: bool)
        requires
            old(self).wf(),
        ensures
            final(self).wf(),
            r == !old(self).set().contains(peer@),
            final(self).set() == old(self).set().insert(peer@),
    {
        match position_of(&self.peers, &peer) {
            Some(i) => {
                assert(self.peers@[i as int]@ == peer@);
                assert(self.set().insert(peer@) =~= self.set());
                false
            },
            None => {
                let ghost before = self.peers@;
                let ghost p = peer@;
                self.peers.push(peer);
                assert forall|b: Seq<u8>| #[trigger] peer_set(before).insert(p).contains(b)
                    == self.set().contains(b) by {
                    if b == p {
                        assert(self.peers@[before.len() as int]@ == b);
                    }
                    if peer_set(before).contains(b) {
                        let i = choose|i: int| 0 <= i < before.len() && #[trigger] before[i]@ == b;
                        assert(self.peers@[i]@ == b);
                    }
                    if self.set().contains(b) {
                        let i = choose|i: int|
                            0 <= i < self.peers@.len() && #[trigger] self.peers@[i]@ == b;
                        if i < before.len() {
                            assert(before[i]@ == b);
                        }
                    }
                }
                assert(peer_set(before).insert(p) =~= self.set());
                true
            },
        }
    }

    fn remove(&mut self, peer: &PeerId) -> (r: bool)
        requires
            old(self).wf(),
        ensures
            final(self).wf(),
            r == old(self).set().contains(peer@),
            final(self).set() == old(self).set().remove(peer@),
    {
        match position_of(&self.peers, peer) {
            Some(i) => {
                let ghost before = self.peers@;
                assert(before[i as int]@ == peer@);
                self.peers.remove(i);
                assert forall|b: Seq<u8>| #[trigger] peer_set(before).remove(peer@).contains(b)
                    == self.set().contains(b) by {
                    if peer_set(before).remove(peer@).contains(b) {
                        let k = choose|k: int| 0 <= k < before.len() && #[trigger] before[k]@ == b;
                        if k < i {
                            assert(self.peers@[k]@ == b);
                        } else {
                            assert(k != i);
                            assert(self.peers@[k - 1]@ == b);
                        }
                    }
                    if self.set().contains(b) {
                        let k = choose|k: int|
                            0 <= k < self.peers@.len() && #[trigger] self.peers@[k]@ == b;
                        if k < i {
                            assert(before[k]@ == b);
                        } else {
                            assert(before[k + 1]@ == b);
                        }
                    }
                }
                assert(peer_set(before).remove(peer@) =~= self.set());
                true
            },
            None => {
                assert(!self.set().contains(peer@));
                assert(self.set().remove(peer@) =~= self.set());
                false
            },
        }
    }
}

/// The list of explicitly allowed peers.
pub struct AllowedPeers {
    peers: PeerList,
}

/// The list of explicitly blocked peers.
pub struct BlockedPeers {
    peers: PeerList,
}

/// A connection to this peer is not explicitly allowed and was thus denied.
#[derive(Debug)]
pub struct NotAllowed {
    peer: PeerId,
}

/// A connection to this peer was explicitly blocked and was thus denied.
#[derive(Debug)]
pub struct Blocked {
    peer: PeerId,
}

impl NotAllowed {
    pub closed spec fn peer_spec(&self) -> Seq<u8> {
        self.peer@
    }

    /// The peer that was denied.
    pub fn peer(&self) -> (r: &PeerId)
        ensures
            r@ == self.peer_spec(),
    {
        &self.peer
    }
}

impl Blocked {
    pub closed spec fn peer_spec(&self) -> Seq<u8> {
        self.peer@
    }

    /// The peer that was denied.
    pub fn peer(&self) -> (r: &PeerId)
        ensures
            r@ == self.peer_spec(),
    {
        &self.peer
    }
}

/// The admission policy of a gate.
pub trait Enforce: Sized {
    /// Why a connection was denied.
    type Denial;

    spec fn wf(&self) -> bool;

    /// The listed peers.
    spec fn listed(&self) -> Set<Seq<u8>>;

    /// Whether a connection with `peer` is admitted.
    spec fn admits(&self, peer: Seq<u8>) -> bool;

    /// The peer named by a denial.
    spec fn denied_peer(d: &Self::Denial) -> Seq<u8>;

    /// Admits or denies a connection with `peer`.
    fn enforce(&self, peer: &PeerId) -> (r: Result<(), Self::Denial>)
        requires
            self.wf(),
        ensures
            match r {
                Ok(()) => self.admits(peer@),
                Err(d) => !self.admits(peer@) && Self::denied_peer(&d) == peer@,
            },
    ;
}

impl Enforce for AllowedPeers {
    type Denial = NotAllowed;

    closed spec fn wf(&self) -> bool {
        self.peers.wf()
    }

    closed spec fn listed(&self) -> Set<Seq<u8>> {
        self.peers.set()
    }

    open spec fn admits(&self, peer: Seq<u8>) -> bool {
        self.listed().contains(peer)
    }

    open spec fn denied_peer(d: &NotAllowed) -> Seq<u8> {
        d.peer_spec()
    }

    fn enforce(&self, peer: &PeerId) -> (r: Result<(), NotAllowed>) {
        if !self.peers.contains(peer) {
            return Err(NotAllowed { peer: peer.duplicate() });
        }
        Ok(())
    }
}

impl Enforce for BlockedPeers {
    type Denial = Blocked;

    closed spec fn wf(&self) -> bool {
        self.peers.wf()
    }

    closed spec fn listed(&self) -> Set<Seq<u8>> {
        self.peers.set()
    }

    open spec fn admits(&self, peer: Seq<u8>) -> bool {
        !self.listed().contains(peer)
    }

    open spec fn denied_peer(d: &Blocked) -> Seq<u8> {
        d.peer_spec()
    }

    fn enforce(&self, peer: &PeerId) -> (r: Result<(), Blocked>) {
        if self.peers.contains(peer) {
            return Err(Blocked { peer: peer.duplicate() });
        }
        Ok(())
    }
}

/// A gate that acts as an allow list or as a block list, depending on `S`.
pub struct Behaviour<S> {
    state: S,
    close_connections: Vec<PeerId>,
    waker: Option<std::task::Waker>,
}

impl<S: Enforce> Behaviour<S> {
    /// The listed peers and the pending close orders.
    pub closed spec fn model(&self) -> GateModel {
        GateModel {
            listed: self.state.listed(),
            closing: self.close_connections@.map_values(|p: PeerId| p@),
        }
    }

    pub closed spec fn wf(&self) -> bool {
        self.state.wf()
    }

    /// The admission policy in force.
    pub closed spec fn policy(&self) -> S {
        self.state
    }

    /// Whether a wake handle from an idle poll is kept, to be roused by the next change of
    /// the list.
    pub closed spec fn waker_kept(&self) -> bool {
        self.waker is Some
    }

    /// Checks an inbound connection that has been established with `peer`.
    pub fn handle_established_inbound_connection(&self, peer: &PeerId) -> (r: Result<
        (),
        S::Denial,
    >)
        requires
            self.wf(),
        ensures
            self.policy().listed() == self.model().listed,
            match r {
                Ok(()) => self.policy().admits(peer@),
                Err(d) => !self.policy().admits(peer@) && S::denied_peer(&d) == peer@,
            },
    {
        self.state.enforce(peer)
    }

    /// Checks an outbound dial; a dial whose peer is not known yet is not checked.
    pub fn handle_pending_outbound_connection(&self, peer: Option<&PeerId>) -> (r: Result<
        (),
        S::Denial,
    >)
        requires
            self.wf(),
        ensures
            self.policy().listed() == self.model().listed,
            match peer {
                None => r is Ok,
                Some(p) => match r {
                    Ok(()) => self.policy().admits(p@),
                    Err(d) => !self.policy().admits(p@) && S::denied_peer(&d) == p@,
                },
            },
    {
        match peer {
            Some(p) => self.state.enforce(p),
            None => Ok(()),
        }
    }

    /// Checks an outbound connection that has been established with `peer`.
    pub fn handle_established_outbound_connection(&self, peer: &PeerId) -> (r: Result<
        (),
        S::Denial,
    >)
        requires
            self.wf(),
        ensures
            self.policy().listed() == self.model().listed,
            match r {
                Ok(()) => self.policy().admits(peer@),
                Err(d) => !self.policy().admits(peer@) && S::denied_peer(&d) == peer@,
            },
    {
        self.state.enforce(peer)
    }

    /// Hands out the oldest pending close order, if any. When there is none, `waker` is kept
    /// and roused by the next change of the list.
    pub fn poll(&mut self, waker: &std::task::Waker) -> (r: Option<PeerId>)
        requires
            old(self).wf(),
        ensures
            final(self).wf(),
            final(self).policy() == old(self).policy(),
            final(self).model() == polled(old(self).model()).1,
            r is None ==> final(self).waker_kept(),
            r is Some ==> final(self).waker_kept() == old(self).waker_kept(),
            match r {
                Some(p) => polled(old(self).model()).0 == Some(p@),
                None => polled(old(self).model()).0 is None,
            },
    {
        if self.close_connections.len() > 0 {
            let ghost before = self.close_connections@;
            let p = self.close_connections.remove(0);
            assert(self.close_connections@.map_values(|p: PeerId| p@) =~= before.map_values(
                |p: PeerId| p@,
            ).drop_first());
            return Some(p);
        }
        self.waker = Some(clone_waker(waker));
        None
    }

    fn wake_up(&mut self)
        ensures
            !final(self).waker_kept(),
            final(self).state == old(self).state,
            final(self).close_connections == old(self).close_connections,
    {
        if let Some(w) = self.waker.take() {
            wake(w);
        }
    }
}

/// What a poll hands out, and the state that follows.
pub open spec fn polled(m: GateModel) -> (Option<Seq<u8>>, GateModel) {
    if m.closing.len() > 0 {
        (Some(m.closing[0]), GateModel { listed: m.listed, closing: m.closing.drop_first() })
    } else {
        (None, m)
    }
}

impl Behaviour<AllowedPeers> {
    /// A gate in allow mode that allows no peer.
    pub fn new() -> (r: Self)
        ensures
            r.wf(),
            r.model().listed == Set::<Seq<u8>>::empty(),
            r.model().closing == Seq::<Seq<u8>>::empty(),
    {
        let r = Behaviour {
            state: AllowedPeers { peers: PeerList::new() },
            close_connections: Vec::new(),
            waker: None,
        };
        assert(r.model().closing =~= Seq::<Seq<u8>>::empty());
        r
    }

    /// Peers that are currently allowed.
    pub fn allowed_peers(&self) -> (r: &Vec<PeerId>)
        ensures
            peer_set(r@) == self.model().listed,
            distinct_peers(r@) == self.wf(),
    {
        &self.state.peers.peers
    }

    /// Allows connections with `peer`. Returns whether the peer was newly inserted.
    pub fn allow_peer(&mut self, peer: PeerId) -> (r: bool)
        requires
            old(self).wf(),
        ensures
            final(self).wf(),
            r ==> !final(self).waker_kept(),
            !r ==> final(self).waker_kept() == old(self).waker_kept(),
            r == !old(self).model().listed.contains(peer@),
            final(self).model() == with_listed(old(self).model(), peer@, false),
    {
        let inserted = self.state.peers.insert(peer);
        if inserted {
            self.wake_up();
        }
        assert(self.model().closing =~= with_listed(old(self).model(), peer@, false).closing);
        inserted
    }

    /// Disallows connections with `peer`, and orders open ones closed. Returns whether the
    /// peer was present.
    pub fn disallow_peer(&mut self, peer: PeerId) -> (r: bool)
        requires
            old(self).wf(),
        ensures
            final(self).wf(),
            r ==> !final(self).waker_kept(),
            !r ==> final(self).waker_kept() == old(self).waker_kept(),
            r == old(self).model().listed.contains(peer@),
            final(self).model() == without_listed(old(self).model(), peer@, true),
    {
        let removed = self.state.peers.remove(&peer);
        let ghost closing = self.close_connections@;
        if removed {
            self.close_connections.push(peer);
            assert(self.close_connections@.map_values(|p: PeerId| p@) =~= closing.map_values(
                |p: PeerId| p@,
            ).push(peer@));
            self.wake_up();
        }
        assert(self.model().closing =~= without_listed(old(self).model(), peer@, true).closing);
        removed
    }
}

impl Default for Behaviour<AllowedPeers> {
    fn default() -> (r: Self)
        ensures
            r.wf(),
            r.model().listed == Set::<Seq<u8>>::empty(),
            r.model().closing == Seq::<Seq<u8>>::empty(),
    {
        Behaviour::<AllowedPeers>::new()
    }
}

impl Behaviour<BlockedPeers> {
    /// A gate in block mode that blocks no peer.
    pub fn new() -> (r: Self)
        ensures
            r.wf(),
            r.model().listed == Set::<Seq<u8>>::empty(),
            r.model().closing == Seq::<Seq<u8>>::empty(),
    {
        let r = Behaviour {
            state: BlockedPeers { peers: PeerList::new() },
            close_connections: Vec::new(),
            waker: None,
        };
        assert(r.model().closing =~= Seq::<Seq<u8>>::empty());
        r
    }

    /// Peers that are currently blocked.
    pub fn blocked_peers(&self) -> (r: &Vec<PeerId>)
        ensures
            peer_set(r@) == self.model().listed,
            distinct_peers(r@) == self.wf(),
    {
        &self.state.peers.peers
    }

    /// Blocks connections with `peer`, and orders open ones closed. Returns whether the peer
    /// was newly inserted.
    pub fn block_peer(&mut self, peer: PeerId) -> (r: bool)
        requires
            old(self).wf(),
        ensures
            final(self).wf(),
            r ==> !final(self).waker_kept(),
            !r ==> final(self).waker_kept() == old(self).waker_kept(),
            r == !old(self).model().listed.contains(peer@),
            final(self).model() == with_listed(old(self).model(), peer@, true),
    {
        let kept = peer.duplicate();
        let inserted = self.state.peers.insert(peer);
        let ghost closing = self.close_connections@;
        if inserted {
            self.close_connections.push(kept);
            assert(self.close_connections@.map_values(|p: PeerId| p@) =~= closing.map_values(
                |p: PeerId| p@,
            ).push(kept@));
            self.wake_up();
        }
        assert(self.model().closing =~= with_listed(old(self).model(), kept@, true).closing);
        inserted
    }

    /// Unblocks connections with `peer`. Returns whether the peer was present.
    pub fn unblock_peer(&mut self, peer: PeerId) -> (r: bool)
        requires
            old(self).wf(),
        ensures
            final(self).wf(),
            r ==> !final(self).waker_kept(),
            !r ==> final(self).waker_kept() == old(self).waker_kept(),
            r == old(self).model().listed.contains(peer@),
            final(self).model() == without_listed(old(self).model(), peer@, false),
    {
        let removed = self.state.peers.remove(&peer);
        if removed {
            self.wake_up();
        }
        assert(self.model().closing =~= without_listed(old(self).model(), peer@, false).closing);
        removed
    }
}

impl Default for Behaviour<BlockedPeers> {
    fn default() -> (r: Self)
        ensures
            r.wf(),
            r.model().listed == Set::<Seq<u8>>::empty(),
            r.model().closing == Seq::<Seq<u8>>::empty(),
    {
        Behaviour::<BlockedPeers>::new()
    }
}

/// Blocking a peer that was not blocked denies it every admission check, and queues a close
/// order for it behind those already pending; unblocking it afterwards admits it again.
pub proof fn lemma_block_then_unblock(m: GateModel, p: Seq<u8>)
    requires
        !m.listed.contains(p),
    ensures
        !block_mode_admits(with_listed(m, p, true), p),
        with_listed(m, p, true).closing == m.closing.push(p),
        with_listed(m, p, true).closing[m.closing.len() as int] == p,
        block_mode_admits(without_listed(with_listed(m, p, true), p, false), p),
{
}

/// A pending close order is handed out by the poll that finds it at the front, and the orders
/// behind it keep their order.
pub proof fn lemma_close_orders_in_order(m: GateModel)
    requires
        m.closing.len() > 0,
    ensures
        polled(m).0 == Some(m.closing[0]),
        polled(m).1.closing == m.closing.subrange(1, m.closing.len() as int),
        polled(m).1.listed == m.listed,
{
}

} // verus!
