use p2p_core::peer::PeerId;
use p2p_core::rendezvous::codec::{
    Cookie, ErrorCode, Message, Namespace, NewRegistration, PeerRecord, Ttl, DEFAULT_TTL, MAX_TTL,
    MIN_TTL,
};
use p2p_core::rendezvous::server::{
    handle_request_at, Behaviour, Config, CookieNamespaceMismatch, Event, Registrations,
    TtlOutOfRange,
};

fn peer(n: u8) -> PeerId {
    PeerId::from_bytes(vec![0, 36, 8, 1, 18, 32, n])
}

fn new_registration(namespace: &'static str, who: u8, ttl: Option<Ttl>) -> NewRegistration {
    NewRegistration::new(
        Namespace::from_static(namespace),
        PeerRecord::new(peer(who), vec![who, 1, 2, 3]),
        ttl,
    )
}

fn new_dummy_registration(namespace: &'static str, who: u8) -> NewRegistration {
    new_registration(namespace, who, None)
}

fn new_dummy_registration_with_ttl(namespace: &'static str, who: u8, ttl: Ttl) -> NewRegistration {
    new_registration(namespace, who, Some(ttl))
}

fn store(min_ttl: Ttl, max_ttl: Ttl) -> Registrations {
    Registrations::with_config(Config::default().with_min_ttl(min_ttl).with_max_ttl(max_ttl))
}

#[test]
fn given_cookie_from_discover_when_discover_again_then_only_get_diff() {
    let mut registrations = Registrations::default();
    registrations.add(new_dummy_registration("foo", 1)).unwrap();
    registrations.add(new_dummy_registration("foo", 2)).unwrap();

    let (initial_discover, cookie) = registrations.get(None, None, None).unwrap();
    assert_eq!(initial_discover.len(), 2);

    let (subsequent_discover, _) = registrations.get(None, Some(cookie), None).unwrap();
    assert_eq!(subsequent_discover.len(), 0);
}

#[test]
fn given_registrations_when_discover_all_then_all_are_returned() {
    let mut registrations = Registrations::default();
    registrations.add(new_dummy_registration("foo", 1)).unwrap();
    registrations.add(new_dummy_registration("foo", 2)).unwrap();

    let (discover, _) = registrations.get(None, None, None).unwrap();

    assert_eq!(discover.len(), 2);
}

#[test]
fn given_registrations_when_discover_only_for_specific_namespace_then_only_those_are_returned() {
    let mut registrations = Registrations::default();
    registrations.add(new_dummy_registration("foo", 1)).unwrap();
    registrations.add(new_dummy_registration("bar", 2)).unwrap();

    let (discover, _) = registrations
        .get(Some(Namespace::from_static("foo")), None, None)
        .unwrap();

    assert_eq!(
        discover.iter().map(|r| r.namespace.as_str()).collect::<Vec<_>>(),
        vec!["foo"]
    );
}

#[test]
fn given_reregistration_old_registration_is_discarded() {
    let mut registrations = Registrations::default();
    registrations.add(new_registration("foo", 7, None)).unwrap();
    registrations.add(new_registration("foo", 7, None)).unwrap();

    let (discover, _) = registrations
        .get(Some(Namespace::from_static("foo")), None, None)
        .unwrap();

    assert_eq!(
        discover.iter().map(|r| r.namespace.as_str()).collect::<Vec<_>>(),
        vec!["foo"]
    );
}

#[test]
fn given_cookie_from_2nd_discover_does_not_return_nodes_from_first_discover() {
    let mut registrations = Registrations::default();
    registrations.add(new_dummy_registration("foo", 1)).unwrap();
    registrations.add(new_dummy_registration("foo", 2)).unwrap();

    let (initial_discover, cookie1) = registrations.get(None, None, None).unwrap();
    assert_eq!(initial_discover.len(), 2);

    let (subsequent_discover, cookie2) = registrations.get(None, Some(cookie1), None).unwrap();
    assert_eq!(subsequent_discover.len(), 0);

    let (subsequent_discover, _) = registrations.get(None, Some(cookie2), None).unwrap();
    assert_eq!(subsequent_discover.len(), 0);
}

#[test]
fn cookie_from_different_discover_request_is_not_valid() {
    let mut registrations = Registrations::default();
    registrations.add(new_dummy_registration("foo", 1)).unwrap();
    registrations.add(new_dummy_registration("bar", 2)).unwrap();

    let (_, foo_discover_cookie) = registrations
        .get(Some(Namespace::from_static("foo")), None, None)
        .unwrap();
    let result = registrations.get(
        Some(Namespace::from_static("bar")),
        Some(foo_discover_cookie),
        None,
    );

    assert!(matches!(result, Err(CookieNamespaceMismatch)))
}

#[test]
fn given_two_registration_ttls_one_expires_one_lives() {
    let mut registrations = store(0, 4);
    let start: u64 = 1_000_000;
    registrations
        .add_at(new_dummy_registration_with_ttl("foo", 1, 1), start, 11)
        .unwrap();
    registrations
        .add_at(new_dummy_registration_with_ttl("bar", 2, 4), start, 12)
        .unwrap();

    assert!(registrations.poll_at(start + 999).is_none());
    assert_eq!(registrations.next_expiry(), Some(start + 1000));
    let event = registrations.poll_at(start + 1000).unwrap();
    assert_eq!(event.namespace.as_str(), "foo");

    let (discovered_foo, _) = registrations
        .get(Some(Namespace::from_static("foo")), None, None)
        .unwrap();
    assert!(discovered_foo.is_empty());
    let (discovered_bar, _) = registrations
        .get(Some(Namespace::from_static("bar")), None, None)
        .unwrap();
    assert!(!discovered_bar.is_empty());
}

#[test]
fn given_peer_unregisters_before_expiry_do_not_emit_registration_expired() {
    let mut registrations = store(1, 10);
    let registration = new_dummy_registration_with_ttl("foo", 1, 2);
    let namespace = registration.namespace.clone();
    let peer_id = registration.record.peer_id().clone();
    registrations.add_at(registration, 0, 21).unwrap();
    assert!(registrations.poll_at(1000).is_none());
    registrations.remove(namespace, peer_id);
    assert!(registrations.poll_at(4000).is_none());
    assert!(registrations.poll_at(10_000).is_none());
}

#[test]
fn given_all_registrations_expired_then_successfully_handle_new_registration_and_expiry() {
    let mut registrations = store(0, 10);
    registrations
        .add_at(new_dummy_registration_with_ttl("foo", 1, 1), 0, 31)
        .unwrap();
    assert!(registrations.poll_at(2000).is_some());
    assert!(registrations.poll_at(3000).is_none());
    registrations
        .add_at(new_dummy_registration_with_ttl("foo", 1, 1), 3000, 32)
        .unwrap();
    assert!(registrations.poll_at(3999).is_none());
    assert!(registrations.poll_at(5000).is_some());
}

#[test]
fn cookies_are_cleaned_up_if_registrations_expire() {
    let mut registrations = store(1, 10);
    registrations
        .add_at(new_dummy_registration_with_ttl("foo", 1, 2), 0, 41)
        .unwrap();
    let (_, _) = registrations.get(None, None, None).unwrap();

    assert_eq!(registrations.cookie_count(), 1);

    assert!(registrations.poll_at(3000).is_some());

    assert_eq!(registrations.cookie_count(), 0);
}

#[test]
fn given_limit_discover_only_returns_n_results() {
    let mut registrations = Registrations::default();
    registrations.add(new_dummy_registration("foo", 1)).unwrap();
    registrations.add(new_dummy_registration("foo", 2)).unwrap();

    let (registrations, _) = registrations.get(None, None, Some(1)).unwrap();

    assert_eq!(registrations.len(), 1);
}

#[test]
fn given_limit_cookie_can_be_used_for_pagination() {
    let mut registrations = Registrations::default();
    registrations.add(new_dummy_registration("foo", 1)).unwrap();
    registrations.add(new_dummy_registration("foo", 2)).unwrap();

    let (discover1, cookie) = registrations.get(None, None, Some(1)).unwrap();
    assert_eq!(discover1.len(), 1);

    let (discover2, _) = registrations.get(None, Some(cookie), None).unwrap();
    assert_eq!(discover2.len(), 1);
}

#[test]
fn registration_paginated_by_namespace() {
    let mut registrations = Registrations::default();
    registrations.add(new_dummy_registration("foo", 1)).unwrap();
    registrations.add(new_dummy_registration("foo", 2)).unwrap();
    let foo = Namespace::from_static("foo");
    let (page1, c1) = registrations.get(Some(foo.clone()), None, Some(1)).unwrap();
    assert_eq!(page1.len(), 1);
    assert_eq!(c1.namespace(), Some(&foo));
    let (page2, c2) = registrations.get(Some(foo.clone()), Some(c1), None).unwrap();
    assert_eq!(page2.len(), 1);
    assert_ne!(page1[0].record.peer_id(), page2[0].record.peer_id());
    let (page3, _) = registrations.get(Some(foo), Some(c2), None).unwrap();
    assert!(page3.is_empty());
}

#[test]
fn namespace_cookie_cannot_discover_all_namespaces() {
    let mut registrations = Registrations::default();
    registrations.add(new_dummy_registration("foo", 1)).unwrap();
    let (_, cookie) = registrations
        .get(Some(Namespace::from_static("foo")), None, None)
        .unwrap();
    assert_eq!(registrations.get(None, Some(cookie), None), Err(CookieNamespaceMismatch));
}

#[test]
fn reregistration_keeps_only_the_later_one() {
    let mut registrations = Registrations::default();
    registrations.add(new_registration("foo", 7, Some(8000))).unwrap();
    registrations.add(new_registration("foo", 7, Some(9000))).unwrap();
    assert_eq!(registrations.len(), 1);
    let (found, _) = registrations
        .get(Some(Namespace::from_static("foo")), None, None)
        .unwrap();
    assert_eq!(found.len(), 1);
    assert_eq!(found[0].ttl, 9000);
}

#[test]
fn ttl_bounds_are_enforced() {
    let mut registrations = store(10, 20);
    assert_eq!(
        registrations.add_at(new_registration("foo", 1, Some(21)), 0, 1),
        Err(TtlOutOfRange::TooLong { bound: 20, requested: 21 })
    );
    assert_eq!(
        registrations.add_at(new_registration("foo", 1, Some(9)), 0, 1),
        Err(TtlOutOfRange::TooShort { bound: 10, requested: 9 })
    );
    let ok = registrations.add_at(new_registration("foo", 1, Some(10)), 0, 1).unwrap();
    assert_eq!(ok.ttl, 10);
    assert_eq!(registrations.len(), 1);
}

#[test]
fn default_ttl_applies_when_none_is_asked() {
    let mut registrations = Registrations::default();
    let reg = registrations.add(new_dummy_registration("foo", 1)).unwrap();
    assert_eq!(reg.ttl, DEFAULT_TTL);
    assert_eq!(MIN_TTL, 7200);
    assert_eq!(MAX_TTL, 259200);
    assert_eq!(new_dummy_registration("foo", 1).effective_ttl(), 7200);
}

#[test]
fn expiry_comes_at_ttl_and_not_before() {
    let mut registrations = store(0, 100);
    registrations.add_at(new_registration("foo", 1, Some(5)), 1000, 9).unwrap();
    assert_eq!(registrations.next_expiry(), Some(6000));
    assert!(registrations.poll_at(5999).is_none());
    let expired = registrations.poll_at(6000).unwrap();
    assert_eq!(expired.ttl, 5);
    assert_eq!(registrations.len(), 0);
    assert_eq!(registrations.next_expiry(), None);
}

#[test]
fn expiry_time_saturates() {
    let mut registrations = store(0, u64::MAX);
    registrations
        .add_at(new_registration("foo", 1, Some(u64::MAX)), 5, 9)
        .unwrap();
    assert_eq!(registrations.next_expiry(), Some(u64::MAX));
}

#[test]
fn namespace_length_is_bounded() {
    let long = "x".repeat(256);
    assert!(Namespace::new(&long).is_err());
    let fits = "y".repeat(255);
    assert_eq!(Namespace::new(&fits).unwrap().as_str(), fits.as_str());
}

#[test]
fn cookie_carries_its_namespace() {
    let c = Cookie::with_id(5, Some(Namespace::from_static("foo")));
    assert_eq!(c.id(), 5);
    assert_eq!(c.namespace().map(|n| n.as_str()), Some("foo"));
    assert!(Cookie::for_all_namespaces().namespace().is_none());
    assert!(c.same_as(&c.duplicate()));
}

#[test]
fn register_from_other_peer_is_not_authorized() {
    let mut registrations = Registrations::default();
    let msg = Message::Register(new_dummy_registration("foo", 1));
    let (event, response) = handle_request_at(peer(2), msg, &mut registrations, 0, 1, 2).unwrap();
    assert!(matches!(
        event,
        Event::PeerNotRegistered { error: ErrorCode::NotAuthorized, .. }
    ));
    assert_eq!(response, Some(Message::RegisterResponse(Err(ErrorCode::NotAuthorized))));
    assert_eq!(registrations.len(), 0);
}

#[test]
fn register_with_bad_ttl_is_refused() {
    let mut registrations = Registrations::default();
    let msg = Message::Register(new_registration("foo", 1, Some(1)));
    let (event, response) = handle_request_at(peer(1), msg, &mut registrations, 0, 1, 2).unwrap();
    assert!(matches!(
        event,
        Event::PeerNotRegistered { error: ErrorCode::InvalidTtl, .. }
    ));
    assert_eq!(response, Some(Message::RegisterResponse(Err(ErrorCode::InvalidTtl))));
}

#[test]
fn register_unregister_and_discover_through_requests() {
    let mut registrations = Registrations::default();
    let msg = Message::Register(new_registration("foo", 1, Some(7300)));
    let (event, response) = handle_request_at(peer(1), msg, &mut registrations, 0, 1, 2).unwrap();
    assert!(matches!(event, Event::PeerRegistered { .. }));
    assert_eq!(response, Some(Message::RegisterResponse(Ok(7300))));

    let discover = Message::Discover {
        namespace: Some(Namespace::from_static("foo")),
        cookie: None,
        limit: None,
    };
    let (event, response) = handle_request_at(peer(3), discover, &mut registrations, 0, 1, 77).unwrap();
    match event {
        Event::DiscoverServed { enquirer, registrations } => {
            assert_eq!(enquirer, peer(3));
            assert_eq!(registrations.len(), 1);
        }
        other => panic!("unexpected event {other:?}"),
    }
    match response {
        Some(Message::DiscoverResponse(Ok((regs, cookie)))) => {
            assert_eq!(regs.len(), 1);
            assert_eq!(cookie.id(), 77);
        }
        other => panic!("unexpected response {other:?}"),
    }

    let (event, response) = handle_request_at(
        peer(1),
        Message::Unregister(Namespace::from_static("foo")),
        &mut registrations,
        0,
        1,
        2,
    )
    .unwrap();
    assert!(matches!(event, Event::PeerUnregistered { .. }));
    assert!(response.is_none());
    assert_eq!(registrations.len(), 0);
}

#[test]
fn discover_with_foreign_cookie_is_refused() {
    let mut registrations = Registrations::default();
    let discover = Message::Discover {
        namespace: Some(Namespace::from_static("bar")),
        cookie: Some(Cookie::with_id(1, Some(Namespace::from_static("foo")))),
        limit: None,
    };
    let (event, response) = handle_request_at(peer(3), discover, &mut registrations, 0, 1, 2).unwrap();
    assert!(matches!(
        event,
        Event::DiscoverNotServed { error: ErrorCode::InvalidCookie, .. }
    ));
    assert_eq!(response, Some(Message::DiscoverResponse(Err(ErrorCode::InvalidCookie))));
}

#[test]
fn responses_are_not_requests() {
    let mut registrations = Registrations::default();
    assert!(handle_request_at(
        peer(1),
        Message::RegisterResponse(Ok(5)),
        &mut registrations,
        0,
        1,
        2
    )
    .is_none());
    assert!(handle_request_at(
        peer(1),
        Message::DiscoverResponse(Err(ErrorCode::Unavailable)),
        &mut registrations,
        0,
        1,
        2
    )
    .is_none());
}

#[test]
fn behaviour_reports_expired_registrations() {
    let mut behaviour = Behaviour::new(Config::default().with_min_ttl(0));
    let event = behaviour.on_request(peer(1), Message::Register(new_registration("foo", 1, Some(0))));
    assert!(matches!(event, Some((Event::PeerRegistered { .. }, _))));
    assert_eq!(behaviour.registrations().len(), 1);
    match behaviour.poll() {
        Some(Event::RegistrationExpired(reg)) => assert_eq!(reg.namespace.as_str(), "foo"),
        other => panic!("unexpected {other:?}"),
    }
    assert!(behaviour.poll().is_none());
}

#[test]
fn expiry_prunes_only_the_expired_id_from_cookies() {
    let mut registrations = store(1, 10);
    registrations.add_at(new_registration("foo", 1, Some(1)), 0, 51).unwrap();
    registrations.add_at(new_registration("foo", 2, Some(5)), 0, 52).unwrap();
    let (first, cookie) = registrations.get(None, None, None).unwrap();
    assert_eq!(first.len(), 2);
    assert_eq!(registrations.cookie_count(), 1);
    assert!(registrations.poll_at(1000).is_some());
    // The cookie still names the registration that lives on, so nothing is delivered again.
    assert_eq!(registrations.cookie_count(), 1);
    let (again, cookie2) = registrations.get(None, Some(cookie), None).unwrap();
    assert!(again.is_empty());
    assert!(registrations.poll_at(5000).is_some());
    assert_eq!(registrations.cookie_count(), 0);
    let (after, _) = registrations.get(None, Some(cookie2), None).unwrap();
    assert!(after.is_empty());
}

#[test]
fn fresh_ids_are_not_in_use() {
    let mut registrations = Registrations::default();
    for who in 0..20u8 {
        registrations.add(new_dummy_registration("foo", who)).unwrap();
        let id = registrations.fresh_registration_id();
        assert!(registrations.add_at(new_dummy_registration("bar", who), 0, id).is_ok());
    }
    assert_eq!(registrations.len(), 40);
    let (all, c) = registrations.get(None, None, None).unwrap();
    assert_eq!(all.len(), 40);
    let fresh = registrations.fresh_cookie_id();
    assert_ne!(fresh, c.id());
}
