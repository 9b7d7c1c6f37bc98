use p2p_core::kad::closest::{
    ClosestPeersIter, ClosestPeersIterConfig, PeersIterState, ALPHA_VALUE, K_VALUE,
};
use p2p_core::kad::disjoint::ClosestDisjointPeersIter;
use p2p_core::kad::fixed::FixedPeersIter;
use p2p_core::kad::key::{compare_distances, distance_of, Key};
use p2p_core::kad::query::{QueryConfig, QueryPool, QueryPoolState, QueryStats};
use p2p_core::peer::PeerId;

fn peer(n: u8) -> PeerId {
    PeerId::from_bytes(vec![0, 36, 8, 1, 18, 32, n])
}

fn point(last: u8) -> [u8; 32] {
    let mut p = [0u8; 32];
    p[31] = last;
    p
}

fn key(n: u8) -> Key {
    Key::new(peer(n), point(n))
}

fn waiting_peer(state: PeersIterState) -> Option<PeerId> {
    match state {
        PeersIterState::Waiting(Some(p)) => Some(p),
        _ => None,
    }
}

#[test]
fn distances_are_xor_compared_big_endian() {
    let target = point(0);
    let mut far = [0u8; 32];
    far[0] = 1;
    let d_near = distance_of(&target, &point(200));
    let d_far = distance_of(&target, &far);
    assert_eq!(d_near[31], 200);
    assert!(compare_distances(&d_near, &d_far) < 0);
    assert!(compare_distances(&d_far, &d_near) > 0);
    assert_eq!(compare_distances(&d_near, &d_near), 0);
    let x = distance_of(&point(0b1010), &point(0b0110));
    assert_eq!(x[31], 0b1100);
}

#[test]
fn query_completes_at_k_successes() {
    let cfg = ClosestPeersIterConfig::new(1, 3, 10_000);
    let mut iter = ClosestPeersIter::with_config(cfg, point(0), vec![key(3), key(1), key(2)]);
    for expected in [1u8, 2, 3] {
        let p = waiting_peer(iter.next(0)).expect("a peer to contact");
        assert_eq!(p, peer(expected));
        assert!(iter.on_success(&p, vec![]));
    }
    assert!(matches!(iter.next(0), PeersIterState::Finished));
    assert!(iter.is_finished());
    assert_eq!(iter.into_result(), vec![peer(1), peer(2), peer(3)]);
}

#[test]
fn closest_iterator_respects_parallelism() {
    let cfg = ClosestPeersIterConfig::new(2, 5, 10_000);
    let mut iter = ClosestPeersIter::with_config(cfg, point(0), vec![key(1), key(2), key(3)]);
    assert_eq!(waiting_peer(iter.next(0)), Some(peer(1)));
    assert_eq!(waiting_peer(iter.next(0)), Some(peer(2)));
    assert!(matches!(iter.next(0), PeersIterState::WaitingAtCapacity));
    assert!(iter.on_failure(&peer(1)));
    assert!(!iter.on_failure(&peer(1)));
    assert_eq!(waiting_peer(iter.next(0)), Some(peer(3)));
}

#[test]
fn expired_request_frees_capacity_and_late_answer_counts() {
    let cfg = ClosestPeersIterConfig::new(1, 1, 100);
    let mut iter = ClosestPeersIter::with_config(cfg, point(0), vec![key(1), key(2)]);
    assert_eq!(waiting_peer(iter.next(0)), Some(peer(1)));
    assert!(matches!(iter.next(50), PeersIterState::WaitingAtCapacity));
    // At 100 the request to peer 1 has expired; the iterator was at capacity when the scan
    // began, so it reports that once more.
    assert!(matches!(iter.next(100), PeersIterState::WaitingAtCapacity));
    assert_eq!(waiting_peer(iter.next(100)), Some(peer(2)));
    // A late answer from peer 1 still counts, and completes the single result.
    assert!(iter.on_success(&peer(1), vec![]));
    assert!(matches!(iter.next(100), PeersIterState::Finished));
}

#[test]
fn closer_peers_are_merged_in_distance_order() {
    let cfg = ClosestPeersIterConfig::new(3, 2, 10_000);
    let mut iter = ClosestPeersIter::with_config(cfg, point(0), vec![key(8)]);
    assert_eq!(waiting_peer(iter.next(0)), Some(peer(8)));
    assert!(iter.on_success(&peer(8), vec![key(4), key(9), key(2), key(4)]));
    // Peer 9 is beyond the two closest once 4 and 8 are known, and is not taken.
    assert_eq!(waiting_peer(iter.next(0)), Some(peer(2)));
    assert_eq!(waiting_peer(iter.next(0)), Some(peer(4)));
    assert!(matches!(iter.next(0), PeersIterState::Waiting(None)));
    assert!(iter.on_success(&peer(2), vec![]));
    assert!(iter.on_success(&peer(4), vec![]));
    assert!(matches!(iter.next(0), PeersIterState::Finished));
    assert_eq!(iter.into_result(), vec![peer(2), peer(4)]);
}

#[test]
fn closest_iterator_finishes_when_nothing_is_left() {
    let cfg = ClosestPeersIterConfig::new(3, 5, 10_000);
    let mut iter = ClosestPeersIter::with_config(cfg, point(0), vec![key(1)]);
    assert_eq!(waiting_peer(iter.next(0)), Some(peer(1)));
    assert!(iter.on_failure(&peer(1)));
    assert!(matches!(iter.next(0), PeersIterState::Finished));
    assert!(!iter.on_success(&peer(1), vec![]));
}

#[test]
fn finished_iterator_ignores_answers() {
    let mut iter = ClosestPeersIter::with_config(
        ClosestPeersIterConfig::default(),
        point(0),
        vec![key(1)],
    );
    assert_eq!(waiting_peer(iter.next(0)), Some(peer(1)));
    iter.finish();
    assert!(!iter.on_success(&peer(1), vec![]));
    assert!(matches!(iter.next(0), PeersIterState::Finished));
    assert_eq!(ALPHA_VALUE, 3);
    assert_eq!(K_VALUE, 20);
}

#[test]
fn fixed_iterator_contacts_each_peer_once() {
    let mut iter = FixedPeersIter::new(vec![peer(1), peer(2), peer(1), peer(3)], 2);
    assert_eq!(waiting_peer(iter.next()), Some(peer(1)));
    assert_eq!(waiting_peer(iter.next()), Some(peer(2)));
    assert!(matches!(iter.next(), PeersIterState::WaitingAtCapacity));
    assert!(iter.on_success(&peer(1)));
    assert!(!iter.on_success(&peer(1)));
    assert_eq!(waiting_peer(iter.next()), Some(peer(3)));
    assert!(iter.on_failure(&peer(2)));
    assert!(matches!(iter.next(), PeersIterState::Waiting(None)));
    assert!(iter.on_success(&peer(3)));
    assert!(matches!(iter.next(), PeersIterState::Finished));
    assert_eq!(iter.into_result(), vec![peer(1), peer(3)]);
}

#[test]
fn query_stats_count_and_merge() {
    let s = QueryStats::empty();
    assert_eq!(s.num_requests(), 0);
    assert_eq!(s.num_pending(), 0);
    assert_eq!(s.duration_at(100), None);
    let merged = s.merge(QueryStats::empty());
    assert_eq!(merged, QueryStats::empty());
}

#[test]
fn pool_drives_a_query_to_completion() {
    let config = QueryConfig { timeout: 1000, ..QueryConfig::default() };
    let mut pool: QueryPool<&'static str> = QueryPool::new(config);
    assert!(matches!(pool.poll(0), QueryPoolState::Idle));
    let id = pool.add_iter_closest(point(0), vec![key(1)], "lookup", Some(1));
    assert_eq!(pool.size(), 1);
    match pool.poll(10) {
        QueryPoolState::Waiting(Some((qid, p))) => {
            assert_eq!(qid, id);
            assert_eq!(p, peer(1));
        }
        _ => panic!("expected a request"),
    }
    assert!(matches!(pool.poll(20), QueryPoolState::Waiting(None)));
    pool.on_success(id, &peer(1), vec![]);
    match pool.poll(30) {
        QueryPoolState::Finished(q) => {
            assert_eq!(q.id(), id);
            assert_eq!(*q.info(), "lookup");
            assert_eq!(q.stats().num_requests(), 1);
            assert_eq!(q.stats().num_successes(), 1);
            assert_eq!(q.stats().num_pending(), 0);
            assert_eq!(q.stats().duration_at(1000), Some(20));
            assert_eq!(q.into_result(), vec![peer(1)]);
        }
        _ => panic!("expected the query to finish"),
    }
    assert_eq!(pool.size(), 0);
}

#[test]
fn pool_times_out_a_stuck_query() {
    let config = QueryConfig { timeout: 1000, ..QueryConfig::default() };
    let mut pool: QueryPool<u8> = QueryPool::new(config);
    let id = pool.add_fixed(vec![peer(1)], 7);
    assert!(matches!(pool.poll(0), QueryPoolState::Waiting(Some(_))));
    assert!(matches!(pool.poll(999), QueryPoolState::Waiting(None)));
    match pool.poll(1000) {
        QueryPoolState::Timeout(q) => {
            assert_eq!(q.id(), id);
            assert_eq!(q.stats().num_pending(), 1);
        }
        _ => panic!("expected a timeout"),
    }
    assert!(matches!(pool.poll(1001), QueryPoolState::Idle));
}

#[test]
fn feedback_for_unknown_query_is_dropped() {
    let mut pool: QueryPool<u8> = QueryPool::new(QueryConfig::default());
    let id = pool.add_fixed(vec![peer(1)], 1);
    assert!(pool.finish(id));
    assert!(matches!(pool.poll(0), QueryPoolState::Finished(_)));
    pool.on_failure(id, &peer(1));
    assert!(!pool.finish(id));
    assert!(!pool.try_finish(id, &vec![]));
    assert!(pool.get(&id).is_none());
    let next = pool.add_fixed(vec![], 2);
    assert_ne!(next, id);
    assert_eq!(next.value(), id.value() + 1);
}

#[test]
fn disjoint_paths_share_out_peers_and_finish_together() {
    let cfg = ClosestPeersIterConfig::new(2, 1, 10_000);
    let mut it =
        ClosestDisjointPeersIter::with_config(cfg, point(0), vec![key(1), key(2), key(3), key(4)]);
    assert_eq!(waiting_peer(it.next(0)), Some(peer(1)));
    assert_eq!(waiting_peer(it.next(0)), Some(peer(2)));
    assert!(!it.finish_paths(&vec![peer(1), peer(2)]));
    assert!(it.on_success(&peer(1), vec![key(5)]));
    assert!(!it.on_success(&peer(9), vec![]));
    assert!(it.on_failure(&peer(2)));
    assert!(!it.is_finished());
    assert!(it.finish_paths(&vec![peer(1), peer(2)]));
    assert!(it.is_finished());
    assert!(matches!(it.next(0), PeersIterState::Finished));
    assert_eq!(it.into_result(), vec![peer(1)]);
}

#[test]
fn pool_uses_disjoint_paths_when_asked() {
    let config = QueryConfig {
        parallelism: 2,
        disjoint_query_paths: true,
        ..QueryConfig::default()
    };
    let mut pool: QueryPool<()> = QueryPool::new(config);
    let id = pool.add_iter_closest(point(0), vec![key(1), key(2)], (), Some(1));
    let mut asked = Vec::new();
    for now in [0u64, 1] {
        match pool.poll(now) {
            QueryPoolState::Waiting(Some((qid, p))) => {
                assert_eq!(qid, id);
                asked.push(p);
            }
            _ => panic!("expected a request"),
        }
    }
    assert_eq!(asked, vec![peer(1), peer(2)]);
    pool.on_success(id, &peer(1), vec![]);
    assert!(!pool.try_finish(id, &vec![peer(1)]));
    pool.on_success(id, &peer(2), vec![]);
    assert!(pool.try_finish(id, &vec![peer(1), peer(2)]));
    match pool.poll(2) {
        QueryPoolState::Finished(q) => assert_eq!(q.into_result(), vec![peer(1), peer(2)]),
        _ => panic!("expected the query to finish"),
    }
}
