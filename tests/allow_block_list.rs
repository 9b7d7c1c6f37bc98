use p2p_core::allow_block_list::{AllowedPeers, Behaviour, BlockedPeers};
use p2p_core::peer::PeerId;

fn peer(n: u8) -> PeerId {
    PeerId::from_bytes(vec![0, 36, 8, 1, 18, 32, n, n, n])
}

struct Noop;

impl std::task::Wake for Noop {
    fn wake(self: std::sync::Arc<Self>) {}
}

fn noop_waker() -> std::task::Waker {
    std::task::Waker::from(std::sync::Arc::new(Noop))
}

#[test]
fn cannot_dial_blocked_peer() {
    let mut dialer = Behaviour::<BlockedPeers>::new();
    let listener = peer(1);
    dialer.block_peer(listener.clone());
    let denied = dialer.handle_pending_outbound_connection(Some(&listener));
    let cause = denied.expect_err("unexpected dial success");
    assert_eq!(cause.peer(), &listener);
}

#[test]
fn can_dial_unblocked_peer() {
    let mut dialer = Behaviour::<BlockedPeers>::new();
    let listener = peer(1);
    dialer.block_peer(listener.clone());
    dialer.unblock_peer(listener.clone());
    assert!(dialer.handle_pending_outbound_connection(Some(&listener)).is_ok());
    assert!(dialer.handle_established_outbound_connection(&listener).is_ok());
}

#[test]
fn blocked_peer_cannot_dial_us() {
    let mut listener = Behaviour::<BlockedPeers>::new();
    let dialer = peer(2);
    listener.block_peer(dialer.clone());
    let cause = listener
        .handle_established_inbound_connection(&dialer)
        .expect_err("blocked peer admitted");
    assert_eq!(cause.peer(), &dialer);
}

#[test]
fn connections_get_closed_upon_blocked() {
    let mut dialer = Behaviour::<BlockedPeers>::new();
    let listener = peer(3);
    let waker = noop_waker();
    assert!(dialer.poll(&waker).is_none());
    assert!(dialer.block_peer(listener.clone()));
    assert_eq!(dialer.poll(&waker), Some(listener.clone()));
    assert!(dialer.poll(&waker).is_none());
}

#[test]
fn cannot_dial_peer_unless_allowed() {
    let mut dialer = Behaviour::<AllowedPeers>::new();
    let listener = peer(4);
    let cause = dialer
        .handle_pending_outbound_connection(Some(&listener))
        .expect_err("unexpected dial success");
    assert_eq!(cause.peer(), &listener);
    dialer.allow_peer(listener.clone());
    assert!(dialer.handle_pending_outbound_connection(Some(&listener)).is_ok());
}

#[test]
fn cannot_dial_disallowed_peer() {
    let mut dialer = Behaviour::<AllowedPeers>::new();
    let listener = peer(5);
    dialer.allow_peer(listener.clone());
    dialer.disallow_peer(listener.clone());
    let cause = dialer
        .handle_pending_outbound_connection(Some(&listener))
        .expect_err("unexpected dial success");
    assert_eq!(cause.peer(), &listener);
}

#[test]
fn not_allowed_peer_cannot_dial_us() {
    let listener = Behaviour::<AllowedPeers>::new();
    let dialer = peer(6);
    assert!(listener.handle_established_inbound_connection(&dialer).is_err());
    // A dial whose peer is not known yet passes the pending check.
    assert!(listener.handle_pending_outbound_connection(None).is_ok());
}

#[test]
fn connections_get_closed_upon_disallow() {
    let mut dialer = Behaviour::<AllowedPeers>::new();
    let listener = peer(7);
    let waker = noop_waker();
    dialer.allow_peer(listener.clone());
    assert!(dialer.poll(&waker).is_none());
    assert!(dialer.disallow_peer(listener.clone()));
    assert_eq!(dialer.poll(&waker), Some(listener));
    assert!(dialer.poll(&waker).is_none());
}

#[test]
fn allow_and_block_report_membership_changes() {
    let mut allow = Behaviour::<AllowedPeers>::default();
    let p = peer(8);
    assert!(allow.allow_peer(p.clone()));
    assert!(!allow.allow_peer(p.clone()));
    assert_eq!(allow.allowed_peers().len(), 1);
    assert!(allow.disallow_peer(p.clone()));
    assert!(!allow.disallow_peer(p.clone()));
    assert!(allow.allowed_peers().is_empty());

    let mut block = Behaviour::<BlockedPeers>::default();
    assert!(block.block_peer(p.clone()));
    assert!(!block.block_peer(p.clone()));
    assert_eq!(block.blocked_peers().len(), 1);
    assert!(block.unblock_peer(p.clone()));
    assert!(!block.unblock_peer(p));
    assert!(block.blocked_peers().is_empty());
}

#[test]
fn close_orders_come_out_in_order() {
    let mut gate = Behaviour::<BlockedPeers>::new();
    let waker = noop_waker();
    gate.block_peer(peer(1));
    gate.block_peer(peer(2));
    gate.block_peer(peer(1));
    gate.block_peer(peer(3));
    assert_eq!(gate.poll(&waker), Some(peer(1)));
    assert_eq!(gate.poll(&waker), Some(peer(2)));
    assert_eq!(gate.poll(&waker), Some(peer(3)));
    assert_eq!(gate.poll(&waker), None);
}

#[test]
fn unblocked_peer_is_admitted_everywhere() {
    let mut gate = Behaviour::<BlockedPeers>::new();
    let p = peer(9);
    gate.block_peer(p.clone());
    assert!(gate.handle_established_inbound_connection(&p).is_err());
    assert!(gate.handle_established_outbound_connection(&p).is_err());
    assert!(gate.handle_pending_outbound_connection(Some(&p)).is_err());
    gate.unblock_peer(p.clone());
    assert!(gate.handle_established_inbound_connection(&p).is_ok());
    assert!(gate.handle_established_outbound_connection(&p).is_ok());
    assert!(gate.handle_pending_outbound_connection(Some(&p)).is_ok());
}

#[test]
fn peer_ids_compare_by_bytes() {
    let a = PeerId::from_bytes(vec![1, 2, 3]);
    let b = PeerId::from_bytes(vec![1, 2, 3]);
    let c = PeerId::from_bytes(vec![1, 2, 4]);
    let d = PeerId::from_bytes(vec![1, 2]);
    assert!(a.same_as(&b));
    assert!(!a.same_as(&c));
    assert!(!a.same_as(&d));
    assert_eq!(a.to_bytes(), vec![1, 2, 3]);
    assert!(a.duplicate().same_as(&a));
}

struct Counter(std::sync::atomic::AtomicUsize);

impl std::task::Wake for Counter {
    fn wake(self: std::sync::Arc<Self>) {
        self.0.fetch_add(1, std::sync::atomic::Ordering::SeqCst);
    }
}

#[test]
fn idle_poll_keeps_waker_and_list_change_rouses_it() {
    let counter = std::sync::Arc::new(Counter(std::sync::atomic::AtomicUsize::new(0)));
    let waker = std::task::Waker::from(counter.clone());
    let mut gate = Behaviour::<BlockedPeers>::new();
    assert!(gate.poll(&waker).is_none());
    assert_eq!(counter.0.load(std::sync::atomic::Ordering::SeqCst), 0);
    assert!(gate.block_peer(peer(1)));
    assert_eq!(counter.0.load(std::sync::atomic::Ordering::SeqCst), 1);
    // The handle was taken: a change that finds no handle rouses nothing.
    assert!(!gate.block_peer(peer(1)));
    assert!(gate.unblock_peer(peer(1)));
    assert_eq!(counter.0.load(std::sync::atomic::Ordering::SeqCst), 1);
}
