//! The registration store of a rendezvous point: registrations under namespaces, expiry by
//! time to live, and paginated discovery through cookies.

use vstd::prelude::*;

use crate::clock::{now_millis, random_u64};
use crate::peer::PeerId;
use crate::rendezvous::codec::{
    duplicate_namespace, effective_ttl, ns_view, Cookie, CookieView, ErrorCode, Message, Namespace,
    NewRegistration, Registration, RegistrationView, Ttl, MAX_TTL, MIN_TTL,
};

verus! {

/// Bounds on the time to live that a store accepts.
pub struct Config {
    min_ttl: Ttl,
    max_ttl: Ttl,
}

impl Config {
    pub closed spec fn spec_min_ttl(&self) -> Ttl {
        self.min_ttl
    }

    pub closed spec fn spec_max_ttl(&self) -> Ttl {
        self.max_ttl
    }

    /// The shortest time to live accepted.
    pub fn min_ttl(&self) -> (r: Ttl)
        ensures
            r == self.spec_min_ttl(),
    {
        self.min_ttl
    }

    /// The longest time to live accepted.
    pub fn max_ttl(&self) -> (r: Ttl)
        ensures
            r == self.spec_max_ttl(),
    {
        self.max_ttl
    }

    pub fn with_min_ttl(self, min_ttl: Ttl) -> (r: Self)
        ensures
            r.spec_min_ttl() == min_ttl,
            r.spec_max_ttl() == self.spec_max_ttl(),
    {
        let mut c = self;
        c.min_ttl = min_ttl;
        c
    }

    pub fn with_max_ttl(self, max_ttl: Ttl) -> (r: Self)
        ensures
            r.spec_max_ttl() == max_ttl,
            r.spec_min_ttl() == self.spec_min_ttl(),
    {
        let mut c = self;
        c.max_ttl = max_ttl;
        c
    }
}

impl Default for Config {
    fn default() -> (r: Self)
        ensures
            r.spec_min_ttl() == MIN_TTL,
            r.spec_max_ttl() == MAX_TTL,
    {
        Config { min_ttl: MIN_TTL, max_ttl: MAX_TTL }
    }
}

/// A time to live outside the bounds of the store.
#[derive(Debug, Clone, Copy, PartialEq, Eq)]
pub enum TtlOutOfRange {
    TooLong { bound: Ttl, requested: Ttl },
    TooShort { bound: Ttl, requested: Ttl },
}

/// A cookie bound to one namespace was used to discover another one, or all of them.
#[derive(Debug, Clone, Copy, PartialEq, Eq)]
pub struct CookieNamespaceMismatch;

/// A stored registration: its identifier, the registration, and when it expires, in
/// milliseconds of wall-clock time.
pub struct EntryView {
    pub id: u64,
    pub registration: RegistrationView,
    pub expires_at: u64,
}

/// A cookie that the store remembers, with the registrations delivered under it.
pub struct CookieEntryView {
    pub cookie: CookieView,
    pub delivered: Seq<u64>,
}

/// What a store holds. A timer is a deadline and the identifier of the registration it
/// expires.
pub struct StoreView {
    pub entries: Seq<EntryView>,
    pub cookies: Seq<CookieEntryView>,
    pub timers: Seq<(u64, u64)>,
    pub min_ttl: Ttl,
    pub max_ttl: Ttl,
}

/// Both entries are registrations of one peer under one namespace.
pub open spec fn same_key(a: EntryView, b: EntryView) -> bool {
    a.registration.peer == b.registration.peer && a.registration.namespace
        == b.registration.namespace
}

/// Entries that stay when `e` is added: those with another identifier and another key.
pub open spec fn survives(e: EntryView) -> spec_fn(EntryView) -> bool {
    |x: EntryView| x.id != e.id && !same_key(x, e)
}

/// Entries that are not a registration of `peer` under `namespace`.
pub open spec fn not_keyed(peer: Seq<u8>, namespace: Seq<char>) -> spec_fn(EntryView) -> bool {
    |x: EntryView| !(x.registration.peer == peer && x.registration.namespace == namespace)
}

/// When a registration made at `now` (milliseconds) with `ttl` (seconds) expires; the
/// latest representable instant where that lies beyond.
pub open spec fn expiry_time(now: u64, ttl: Ttl) -> u64 {
    if now + ttl * 1000 <= u64::MAX {
        (now + ttl * 1000) as u64
    } else {
        u64::MAX
    }
}

/// The store after `e` is added: an earlier registration of the same peer under the same
/// namespace, and one with the same identifier, are replaced, and a timer is set.
pub open spec fn added(m: StoreView, e: EntryView) -> StoreView {
    StoreView {
        entries: m.entries.filter(survives(e)).push(e),
        cookies: m.cookies,
        timers: m.timers.push((e.expires_at, e.id)),
        min_ttl: m.min_ttl,
        max_ttl: m.max_ttl,
    }
}

/// The store after the registration of `peer` under `namespace` is removed.
pub open spec fn removed(m: StoreView, peer: Seq<u8>, namespace: Seq<char>) -> StoreView {
    StoreView {
        entries: m.entries.filter(not_keyed(peer, namespace)),
        cookies: m.cookies,
        timers: m.timers,
        min_ttl: m.min_ttl,
        max_ttl: m.max_ttl,
    }
}

/// Whether `timers` holds a timer for `id`.
pub open spec fn has_timer(timers: Seq<(u64, u64)>, id: u64) -> bool {
    exists|t: int| 0 <= t < timers.len() && #[trigger] timers[t].1 == id
}

/// The invariant of a store: identifiers and keys are unique, every registration has its
/// timer, cookies are unique, every remembered cookie names at least one delivered
/// registration, each of which still has a timer, and a timer for the identifier of a stored
/// registration is that registration's own.
pub open spec fn store_wf(m: StoreView) -> bool {
    &&& forall|i: int, j: int|
        0 <= i < m.entries.len() && 0 <= j < m.entries.len() && i != j ==> #[trigger] m.entries[i].id
            != #[trigger] m.entries[j].id
    &&& forall|i: int, j: int|
        0 <= i < m.entries.len() && 0 <= j < m.entries.len() && i != j ==> !same_key(
            #[trigger] m.entries[i],
            #[trigger] m.entries[j],
        )
    &&& forall|i: int|
        0 <= i < m.entries.len() ==> m.timers.contains(
            (#[trigger] m.entries[i].expires_at, m.entries[i].id),
        )
    &&& forall|i: int, j: int|
        0 <= i < m.cookies.len() && 0 <= j < m.cookies.len() && i != j ==> #[trigger] m.cookies[i].cookie
            != #[trigger] m.cookies[j].cookie
    &&& forall|i: int| 0 <= i < m.cookies.len() ==> #[trigger] m.cookies[i].delivered.len() > 0
    &&& forall|i: int, k: int|
        0 <= i < m.cookies.len() && 0 <= k < m.cookies[i].delivered.len() ==> has_timer(
            m.timers,
            #[trigger] m.cookies[i].delivered[k],
        )
    &&& forall|t: int, i: int|
        0 <= t < m.timers.len() && 0 <= i < m.entries.len() && #[trigger] m.timers[t].1
            == #[trigger] m.entries[i].id ==> m.timers[t].0 == m.entries[i].expires_at
}

/// A discovery for `namespace` under `cookie` is refused: the cookie is bound to a namespace
/// and the discovery is for all namespaces or for another one.
pub open spec fn cookie_mismatch(namespace: Option<Seq<char>>, cookie: Option<CookieView>) -> bool {
    match cookie {
        Some(c) => match c.namespace {
            Some(bound) => match namespace {
                Some(n) => n != bound,
                None => true,
            },
            None => false,
        },
        None => false,
    }
}

/// The view of an optional cookie.
pub open spec fn cookie_view(cookie: Option<Cookie>) -> Option<CookieView> {
    match cookie {
        Some(c) => Some(c@),
        None => None,
    }
}

/// The identifiers delivered under `cookie`; none for no cookie or one the store does not
/// remember.
pub open spec fn delivered_under(cookies: Seq<CookieEntryView>, cookie: Option<CookieView>) -> Seq<
    u64,
> {
    match cookie {
        Some(c) => if exists|i: int| 0 <= i < cookies.len() && #[trigger] cookies[i].cookie == c {
            cookies[choose|i: int| 0 <= i < cookies.len() && #[trigger] cookies[i].cookie == c].delivered
        } else {
            Seq::empty()
        },
        None => Seq::empty(),
    }
}

/// Entries not delivered yet that belong to `namespace`, or to any namespace for `None`.
pub open spec fn selectable(delivered: Seq<u64>, namespace: Option<Seq<char>>) -> spec_fn(
    EntryView,
) -> bool {
    |x: EntryView|
        !delivered.contains(x.id) && match namespace {
            Some(n) => x.registration.namespace == n,
            None => true,
        }
}

/// The first `limit` elements of `s`, or all of them.
pub open spec fn up_to<A>(s: Seq<A>, limit: Option<u64>) -> Seq<A> {
    match limit {
        Some(l) => if l < s.len() {
            s.take(l as int)
        } else {
            s
        },
        None => s,
    }
}

/// The entries that a discovery for `namespace` under `cookie` returns, in store order.
pub open spec fn discovered(
    m: StoreView,
    namespace: Option<Seq<char>>,
    cookie: Option<CookieView>,
    limit: Option<u64>,
) -> Seq<EntryView> {
    up_to(m.entries.filter(selectable(delivered_under(m.cookies, cookie), namespace)), limit)
}

/// The identifiers of a sequence of entries.
pub open spec fn ids_of(s: Seq<EntryView>) -> Seq<u64> {
    s.map_values(|e: EntryView| e.id)
}

/// The registrations of a sequence of entries.
pub open spec fn registrations_of(s: Seq<EntryView>) -> Seq<RegistrationView> {
    s.map_values(|e: EntryView| e.registration)
}

/// Cookie entries for another cookie than `c`.
pub open spec fn other_cookie(c: CookieView) -> spec_fn(CookieEntryView) -> bool {
    |x: CookieEntryView| x.cookie != c
}

/// The remembered cookies once `c` names `delivered`: an earlier entry for `c` is dropped,
/// and a cookie that names nothing is not kept.
pub open spec fn remembered(
    cookies: Seq<CookieEntryView>,
    c: CookieView,
    delivered: Seq<u64>,
) -> Seq<CookieEntryView> {
    if delivered.len() > 0 {
        cookies.filter(other_cookie(c)).push(CookieEntryView { cookie: c, delivered })
    } else {
        cookies.filter(other_cookie(c))
    }
}

/// The store after a discovery for `namespace` under `cookie` that hands out `new_cookie`:
/// the new cookie names what the old one named and what was just delivered.
pub open spec fn after_discover(
    m: StoreView,
    namespace: Option<Seq<char>>,
    cookie: Option<CookieView>,
    limit: Option<u64>,
    new_cookie: CookieView,
) -> StoreView {
    StoreView {
        entries: m.entries,
        cookies: remembered(
            m.cookies,
            new_cookie,
            delivered_under(m.cookies, cookie) + ids_of(discovered(m, namespace, cookie, limit)),
        ),
        timers: m.timers,
        min_ttl: m.min_ttl,
        max_ttl: m.max_ttl,
    }
}

/// Identifiers other than `id`.
pub open spec fn other_id(id: u64) -> spec_fn(u64) -> bool {
    |x: u64| x != id
}

/// A remembered cookie once `id` expired: `id` leaves what it names.
pub open spec fn without_id(c: CookieEntryView, id: u64) -> CookieEntryView {
    CookieEntryView { cookie: c.cookie, delivered: c.delivered.filter(other_id(id)) }
}

/// The remembered cookies once `id` expired: `id` leaves every one of them, and a cookie
/// that names nothing more is dropped.
pub open spec fn forgotten(cookies: Seq<CookieEntryView>, id: u64) -> Seq<CookieEntryView>
    decreases cookies.len(),
{
    if cookies.len() == 0 {
        cookies
    } else {
        let rest = forgotten(cookies.drop_last(), id);
        let c = without_id(cookies.last(), id);
        if c.delivered.len() > 0 {
            rest.push(c)
        } else {
            rest
        }
    }
}

/// The remembered cookies once the timers `fired` went off, one after another.
pub open spec fn forgotten_all(cookies: Seq<CookieEntryView>, fired: Seq<(u64, u64)>) -> Seq<
    CookieEntryView,
>
    decreases fired.len(),
{
    if fired.len() == 0 {
        cookies
    } else {
        forgotten(forgotten_all(cookies, fired.drop_last()), fired.last().1)
    }
}

/// The timers `fired`, all due at `now`, went off between `before` and `after`: they left the
/// pending timers, and each expired identifier left the remembered cookies.
pub open spec fn fired_between(before: StoreView, after: StoreView, fired: Seq<(u64, u64)>, now: u64) -> bool {
    &&& forall|j: int| 0 <= j < fired.len() ==> (#[trigger] fired[j]).0 <= now
    &&& before.timers.to_multiset() == after.timers.to_multiset().add(fired.to_multiset())
    &&& after.cookies == forgotten_all(before.cookies, fired)
}

/// Filtering keeps keys unique.
proof fn lemma_filter_unique<A, K>(s: Seq<A>, p: spec_fn(A) -> bool, key: spec_fn(A) -> K)
    requires
        forall|i: int, j: int|
            0 <= i < s.len() && 0 <= j < s.len() && i != j ==> key(s[i]) != key(s[j]),
    ensures
        forall|i: int, j: int|
            0 <= i < s.filter(p).len() && 0 <= j < s.filter(p).len() && i != j ==> key(
                s.filter(p)[i],
            ) != key(s.filter(p)[j]),
    decreases s.len(),
{
    reveal(Seq::filter);
    if s.len() > 0 {
        let d = s.drop_last();
        assert forall|i: int, j: int|
            0 <= i < d.len() && 0 <= j < d.len() && i != j implies key(d[i]) != key(d[j]) by {
            assert(d[i] == s[i] && d[j] == s[j]);
        }
        lemma_filter_unique(d, p, key);
        if p(s.last()) {
            let f = d.filter(p);
            assert forall|k: int| 0 <= k < f.len() implies key(f[k]) != key(s.last()) by {
                assert(f.contains(f[k]));
                d.lemma_filter_contains_rev(p, f[k]);
                let j = choose|j: int| 0 <= j < d.len() && d[j] == f[k];
                assert(s[j] == d[j]);
            }
            assert(s.filter(p) == f.push(s.last()));
        }
    }
}

/// Elements of a filtered sequence come from the sequence.
proof fn lemma_filter_member<A>(s: Seq<A>, p: spec_fn(A) -> bool, k: int)
    requires
        0 <= k < s.filter(p).len(),
    ensures
        s.contains(s.filter(p)[k]),
        p(s.filter(p)[k]),
{
    assert(s.filter(p).contains(s.filter(p)[k]));
    s.lemma_filter_contains_rev(p, s.filter(p)[k]);
    s.lemma_filter_pred(p, k);
}

/// Filtering a sequence filters its prefix and its rest.
proof fn lemma_filter_split<A>(s: Seq<A>, p: spec_fn(A) -> bool, i: int)
    requires
        0 <= i <= s.len(),
    ensures
        s.filter(p) == s.take(i).filter(p) + s.skip(i).filter(p),
{
    assert(s == s.take(i) + s.skip(i));
    Seq::filter_distributes_over_add(s.take(i), s.skip(i), p);
}

/// With unique cookies, the cookie at `i` names what the store says was delivered under it.
proof fn lemma_delivered_at(cookies: Seq<CookieEntryView>, c: CookieView, i: int)
    requires
        0 <= i < cookies.len(),
        cookies[i].cookie == c,
        forall|a: int, b: int|
            0 <= a < cookies.len() && 0 <= b < cookies.len() && a != b ==> #[trigger] cookies[a].cookie
                != #[trigger] cookies[b].cookie,
    ensures
        delivered_under(cookies, Some(c)) == cookies[i].delivered,
{
    let j = choose|j: int| 0 <= j < cookies.len() && #[trigger] cookies[j].cookie == c;
    assert(cookies[j].cookie == c);
}

struct Entry {
    id: u64,
    registration: Registration,
    expires_at: u64,
}

impl View for Entry {
    type V = EntryView;

    closed spec fn view(&self) -> EntryView {
        EntryView { id: self.id, registration: self.registration@, expires_at: self.expires_at }
    }
}

impl Entry {
    fn duplicate(&self) -> (r: Entry)
        ensures
            r@ == self@,
    {
        Entry {
            id: self.id,
            registration: self.registration.duplicate(),
            expires_at: self.expires_at,
        }
    }
}

struct CookieEntry {
    cookie: Cookie,
    delivered: Vec<u64>,
}

impl View for CookieEntry {
    type V = CookieEntryView;

    closed spec fn view(&self) -> CookieEntryView {
        CookieEntryView { cookie: self.cookie@, delivered: self.delivered@ }
    }
}

/// Copies a vector of identifiers.
fn copy_ids(v: &Vec<u64>) -> (r: Vec<u64>)
    ensures
        r@ == v@,
{
    let mut out: Vec<u64> = Vec::with_capacity(v.len());
    let mut i: usize = 0;
    while i < v.len()
        invariant
            i <= v.len(),
            out@ == v@.take(i as int),
        decreases v.len() - i,
    {
        out.push(v[i]);
        i = i + 1;
        assert(out@ =~= v@.take(i as int));
    }
    assert(out@ =~= v@);
    out
}

/// Whether `v` holds `id`.
fn holds_id(v: &Vec<u64>, id: u64) -> (r: bool)
    ensures
        r == v@.contains(id),
{
    let mut i: usize = 0;
    while i < v.len()
        invariant
            i <= v.len(),
            forall|j: int| 0 <= j < i ==> v@[j] != id,
        decreases v.len() - i,
    {
        if v[i] == id {
            assert(v@[i as int] == id);
            return true;
        }
        i = i + 1;
    }
    false
}

/// Some value from 0 to `ids.len()` is not in `ids`.
proof fn lemma_some_value_free(ids: Seq<u64>)
    requires
        ids.len() <= u64::MAX,
    ensures
        exists|x: u64| x <= ids.len() && !#[trigger] ids.contains(x),
{
    if forall|x: u64| x <= ids.len() ==> #[trigger] ids.contains(x) {
        let vals = ids.map_values(|v: u64| v as int);
        let range = vstd::set_lib::set_int_range(0, ids.len() as int + 1);
        vstd::set_lib::lemma_int_range(0, ids.len() as int + 1);
        assert forall|x: int| range.contains(x) implies vals.to_set().contains(x) by {
            assert(ids.contains(x as u64));
            let k = choose|k: int| 0 <= k < ids.len() && ids[k] == x as u64;
            assert(vals[k] == x);
        }
        vals.lemma_cardinality_of_set();
        vstd::set_lib::lemma_len_subset(range, vals.to_set());
    }
}

/// `candidate` where `ids` does not hold it, else the least value it does not hold.
fn free_id(ids: &Vec<u64>, candidate: u64) -> (r: u64)
    ensures
        !ids@.contains(r),
        !ids@.contains(candidate) ==> r == candidate,
{
    if !holds_id(ids, candidate) {
        return candidate;
    }
    let n: u64 = ids.len() as u64;
    let mut c: u64 = 0;
    while c < n && holds_id(ids, c)
        invariant
            c <= n,
            n == ids@.len(),
            forall|x: u64| x < c ==> #[trigger] ids@.contains(x),
        decreases n - c,
    {
        c = c + 1;
    }
    let taken = holds_id(ids, c);
    proof {
        if taken {
            assert(c == n);
            lemma_some_value_free(ids@);
            let x = choose|x: u64| x <= ids@.len() && !#[trigger] ids@.contains(x);
            if x < c {
                assert(ids@.contains(x));
            }
        }
    }
    c
}

/// The registrations of a rendezvous point.
pub struct Registrations {
    entries: Vec<Entry>,
    cookies: Vec<CookieEntry>,
    timers: Vec<(u64, u64)>,
    min_ttl: Ttl,
    max_ttl: Ttl,
}

impl View for Registrations {
    type V = StoreView;

    closed spec fn view(&self) -> StoreView {
        StoreView {
            entries: self.entries@.map_values(|e: Entry| e@),
            cookies: self.cookies@.map_values(|c: CookieEntry| c@),
            timers: self.timers@,
            min_ttl: self.min_ttl,
            max_ttl: self.max_ttl,
        }
    }
}

impl Registrations {
    pub open spec fn wf(&self) -> bool {
        store_wf(self@)
    }

    /// An empty store that accepts the times to live that `config` allows.
    pub fn with_config(config: Config) -> (r: Self)
        ensures
            r.wf(),
            r@.entries.len() == 0,
            r@.cookies.len() == 0,
            r@.timers.len() == 0,
            r@.min_ttl == config.spec_min_ttl(),
            r@.max_ttl == config.spec_max_ttl(),
    {
        Registrations {
            entries: Vec::new(),
            cookies: Vec::new(),
            timers: Vec::new(),
            min_ttl: config.min_ttl,
            max_ttl: config.max_ttl,
        }
    }

    /// Adds a registration made at `now` (milliseconds of wall-clock time) under the
    /// identifier `id`, or refuses a time to live outside the bounds.
    pub fn add_at(&mut self, new_registration: NewRegistration, now: u64, id: u64) -> (r: Result<
        Registration,
        TtlOutOfRange,
    >)
        requires
            old(self).wf(),
            !has_timer(old(self)@.timers, id),
        ensures
            final(self).wf(),
            ({
                let ttl = effective_ttl(new_registration.ttl);
                match r {
                    Err(TtlOutOfRange::TooLong { bound, requested }) => ttl > old(self)@.max_ttl
                        && bound == old(self)@.max_ttl && requested == ttl && final(self)@ == old(
                        self,
                    )@,
                    Err(TtlOutOfRange::TooShort { bound, requested }) => ttl <= old(self)@.max_ttl
                        && ttl < old(self)@.min_ttl && bound == old(self)@.min_ttl && requested
                        == ttl && final(self)@ == old(self)@,
                    Ok(reg) => old(self)@.min_ttl <= ttl <= old(self)@.max_ttl && reg@ == (
                    RegistrationView {
                        namespace: new_registration.namespace@,
                        peer: new_registration.record@.peer,
                        envelope: new_registration.record@.envelope,
                        ttl,
                    }) && final(self)@ == added(
                        old(self)@,
                        EntryView { id, registration: reg@, expires_at: expiry_time(now, ttl) },
                    ),
                }
            }),
    {
        let ttl = new_registration.effective_ttl();
        if ttl > self.max_ttl {
            return Err(TtlOutOfRange::TooLong { bound: self.max_ttl, requested: ttl });
        }
        if ttl < self.min_ttl {
            return Err(TtlOutOfRange::TooShort { bound: self.min_ttl, requested: ttl });
        }
        let expires_at: u64 = if ttl > (u64::MAX - now) / 1000 {
            assert(now + ttl * 1000 > u64::MAX) by (nonlinear_arith)
                requires
                    ttl > (u64::MAX - now) / 1000,
                    now <= u64::MAX,
            ;
            u64::MAX
        } else {
            assert(now + ttl * 1000 <= u64::MAX) by (nonlinear_arith)
                requires
                    ttl <= (u64::MAX - now) / 1000,
                    now <= u64::MAX,
            ;
            now + ttl * 1000
        };
        let registration = Registration {
            namespace: new_registration.namespace,
            record: new_registration.record,
            ttl,
        };
        let entry = Entry { id, registration, expires_at };
        let ghost e = entry@;
        let ghost old_view = self@;
        let ghost keep = survives(e);
        let mut kept: Vec<Entry> = Vec::new();
        let mut i: usize = 0;
        while i < self.entries.len()
            invariant
                i <= self.entries.len(),
                self@ == old_view,
                keep == survives(e),
                e == entry@,
                entry.id == id,
                kept@.map_values(|x: Entry| x@) == old_view.entries.take(i as int).filter(keep),
            decreases self.entries.len() - i,
        {
            let x = &self.entries[i];
            let ghost before = kept@.map_values(|x: Entry| x@);
            assert(old_view.entries.take(i + 1) =~= old_view.entries.take(i as int).push(x@));
            proof { old_view.entries.take(i as int).lemma_filter_push(x@, keep); }
            let same = x.registration.record.peer_id().same_as(entry.registration.record.peer_id())
                && x.registration.namespace.same_as(&entry.registration.namespace);
            assert(old_view.entries[i as int] == x@);
            assert(keep(x@) == (x.id != id && !same));
            if x.id != id && !same {
                kept.push(x.duplicate());
                assert(kept@.map_values(|x: Entry| x@) =~= before.push(x@));
            }
            i = i + 1;
        }
        assert(old_view.entries.take(i as int) =~= old_view.entries);
        let result = entry.registration.duplicate();
        kept.push(entry);
        self.entries = kept;
        self.timers.push((expires_at, id));
        proof {
            let m = self@;
            let f = old_view.entries.filter(keep);
            assert(m.entries =~= f.push(e));
            assert(m.timers =~= old_view.timers.push((e.expires_at, e.id)));
            lemma_filter_unique(old_view.entries, keep, |x: EntryView| x.id);
            lemma_filter_unique(
                old_view.entries,
                keep,
                |x: EntryView| (x.registration.peer, x.registration.namespace),
            );
            assert forall|a: int, b: int|
                0 <= a < m.entries.len() && 0 <= b < m.entries.len() && a != b implies #[trigger] m.entries[a].id
                != #[trigger] m.entries[b].id && !same_key(m.entries[a], m.entries[b]) by {
                if a < f.len() {
                    lemma_filter_member(old_view.entries, keep, a);
                }
                if b < f.len() {
                    lemma_filter_member(old_view.entries, keep, b);
                }
                if a < f.len() && b < f.len() {
                    assert((|x: EntryView| x.id)(f[a]) != (|x: EntryView| x.id)(f[b]));
                    assert((|x: EntryView| (x.registration.peer, x.registration.namespace))(f[a])
                        != (|x: EntryView| (x.registration.peer, x.registration.namespace))(f[b]));
                }
            }
            assert forall|a: int| 0 <= a < m.entries.len() implies m.timers.contains(
                (#[trigger] m.entries[a].expires_at, m.entries[a].id),
            ) by {
                if a < f.len() {
                    lemma_filter_member(old_view.entries, keep, a);
                    let j = choose|j: int| 0 <= j < old_view.entries.len() && old_view.entries[j] == f[a];
                    assert(old_view.timers.contains((old_view.entries[j].expires_at, old_view.entries[j].id)));
                    let t = choose|t: int| 0 <= t < old_view.timers.len() && old_view.timers[t] == (old_view.entries[j].expires_at, old_view.entries[j].id);
                    assert(m.timers[t] == old_view.timers[t]);
                } else {
                    assert(m.timers[old_view.timers.len() as int] == (e.expires_at, e.id));
                }
            }
            assert forall|c: int, k: int|
                0 <= c < m.cookies.len() && 0 <= k < m.cookies[c].delivered.len() implies has_timer(
                m.timers,
                #[trigger] m.cookies[c].delivered[k],
            ) by {
                assert(has_timer(old_view.timers, old_view.cookies[c].delivered[k]));
                let t = choose|t: int| 0 <= t < old_view.timers.len() && #[trigger] old_view.timers[t].1 == old_view.cookies[c].delivered[k];
                assert(m.timers[t] == old_view.timers[t]);
            }
            assert forall|t: int, a: int|
                0 <= t < m.timers.len() && 0 <= a < m.entries.len() && #[trigger] m.timers[t].1
                    == #[trigger] m.entries[a].id implies m.timers[t].0 == m.entries[a].expires_at by {
                if a < f.len() {
                    lemma_filter_member(old_view.entries, keep, a);
                    let j = choose|j: int| 0 <= j < old_view.entries.len() && old_view.entries[j] == f[a];
                    assert(m.entries[a] == old_view.entries[j]);
                    if t < old_view.timers.len() {
                        assert(m.timers[t] == old_view.timers[t]);
                        assert(old_view.timers[t].1 == old_view.entries[j].id);
                    } else {
                        assert(m.timers[t] == (e.expires_at, e.id));
                    }
                } else {
                    assert(m.entries[a] == e);
                    if t < old_view.timers.len() {
                        assert(m.timers[t] == old_view.timers[t]);
                        assert(old_view.timers[t].1 == id);
                        assert(has_timer(old_view.timers, id));
                    }
                }
            }
        }
        Ok(result)
    }

    /// Removes the registration of `peer_id` under `namespace`, if there is one.
    pub fn remove(&mut self, namespace: Namespace, peer_id: PeerId)
        requires
            old(self).wf(),
        ensures
            final(self).wf(),
            final(self)@ == removed(old(self)@, peer_id@, namespace@),
    {
        let ghost old_view = self@;
        let ghost keep = not_keyed(peer_id@, namespace@);
        let mut kept: Vec<Entry> = Vec::new();
        let mut i: usize = 0;
        while i < self.entries.len()
            invariant
                i <= self.entries.len(),
                self@ == old_view,
                keep == not_keyed(peer_id@, namespace@),
                kept@.map_values(|x: Entry| x@) == old_view.entries.take(i as int).filter(keep),
            decreases self.entries.len() - i,
        {
            let x = &self.entries[i];
            let ghost before = kept@.map_values(|x: Entry| x@);
            assert(old_view.entries.take(i + 1) =~= old_view.entries.take(i as int).push(x@));
            proof { old_view.entries.take(i as int).lemma_filter_push(x@, keep); }
            let same = x.registration.record.peer_id().same_as(&peer_id)
                && x.registration.namespace.same_as(&namespace);
            assert(old_view.entries[i as int] == x@);
            assert(keep(x@) == !same);
            if !same {
                kept.push(x.duplicate());
                assert(kept@.map_values(|x: Entry| x@) =~= before.push(x@));
            }
            i = i + 1;
        }
        assert(old_view.entries.take(i as int) =~= old_view.entries);
        self.entries = kept;
        proof {
            let m = self@;
            let f = old_view.entries.filter(keep);
            assert(m.entries =~= f);
            lemma_filter_unique(old_view.entries, keep, |x: EntryView| x.id);
            lemma_filter_unique(
                old_view.entries,
                keep,
                |x: EntryView| (x.registration.peer, x.registration.namespace),
            );
            assert forall|a: int, b: int|
                0 <= a < m.entries.len() && 0 <= b < m.entries.len() && a != b implies #[trigger] m.entries[a].id
                != #[trigger] m.entries[b].id && !same_key(m.entries[a], m.entries[b]) by {
                assert((|x: EntryView| x.id)(f[a]) != (|x: EntryView| x.id)(f[b]));
                assert((|x: EntryView| (x.registration.peer, x.registration.namespace))(f[a])
                    != (|x: EntryView| (x.registration.peer, x.registration.namespace))(f[b]));
            }
            assert forall|a: int| 0 <= a < m.entries.len() implies m.timers.contains(
                (#[trigger] m.entries[a].expires_at, m.entries[a].id),
            ) by {
                lemma_filter_member(old_view.entries, keep, a);
                let j = choose|j: int| 0 <= j < old_view.entries.len() && old_view.entries[j] == f[a];
                assert(old_view.timers.contains((old_view.entries[j].expires_at, old_view.entries[j].id)));
            }
            assert forall|t: int, a: int|
                0 <= t < m.timers.len() && 0 <= a < m.entries.len() && #[trigger] m.timers[t].1
                    == #[trigger] m.entries[a].id implies m.timers[t].0 == m.entries[a].expires_at by {
                lemma_filter_member(old_view.entries, keep, a);
                let j = choose|j: int| 0 <= j < old_view.entries.len() && old_view.entries[j] == f[a];
                assert(m.entries[a] == old_view.entries[j]);
                assert(m.timers[t] == old_view.timers[t]);
            }
        }
    }
}

impl CookieEntry {
    fn duplicate(&self) -> (r: CookieEntry)
        ensures
            r@ == self@,
    {
        CookieEntry { cookie: self.cookie.duplicate(), delivered: copy_ids(&self.delivered) }
    }
}

impl Registrations {
    /// Where the store remembers `cookie`, if it does.
    fn find_cookie(&self, cookie: &Cookie) -> (r: Option<usize>)
        ensures
            match r {
                Some(i) => i < self@.cookies.len() && self@.cookies[i as int].cookie == cookie@,
                None => forall|i: int|
                    0 <= i < self@.cookies.len() ==> #[trigger] self@.cookies[i].cookie != cookie@,
            },
    {
        let mut i: usize = 0;
        while i < self.cookies.len()
            invariant
                i <= self.cookies.len(),
                forall|j: int| 0 <= j < i ==> #[trigger] self@.cookies[j].cookie != cookie@,
            decreases self.cookies.len() - i,
        {
            if self.cookies[i].cookie.same_as(cookie) {
                return Some(i);
            }
            i = i + 1;
        }
        None
    }

    /// Lets `cookie` name `delivered`, in place of what it named before.
    fn remember(&mut self, cookie: Cookie, delivered: Vec<u64>)
        requires
            old(self).wf(),
            forall|k: int| 0 <= k < delivered@.len() ==> has_timer(old(self)@.timers, #[trigger] delivered@[k]),
        ensures
            final(self).wf(),
            final(self)@ == (StoreView {
                cookies: remembered(old(self)@.cookies, cookie@, delivered@),
                ..old(self)@
            }),
    {
        let ghost old_view = self@;
        let ghost c = cookie@;
        let ghost keep = other_cookie(c);
        let mut kept: Vec<CookieEntry> = Vec::new();
        let mut i: usize = 0;
        while i < self.cookies.len()
            invariant
                i <= self.cookies.len(),
                self@ == old_view,
                keep == other_cookie(c),
                c == cookie@,
                kept@.map_values(|x: CookieEntry| x@) == old_view.cookies.take(i as int).filter(keep),
            decreases self.cookies.len() - i,
        {
            let x = &self.cookies[i];
            let ghost before = kept@.map_values(|x: CookieEntry| x@);
            assert(old_view.cookies.take(i + 1) =~= old_view.cookies.take(i as int).push(x@));
            proof {
                old_view.cookies.take(i as int).lemma_filter_push(x@, keep);
            }
            assert(old_view.cookies[i as int] == x@);
            if !x.cookie.same_as(&cookie) {
                kept.push(x.duplicate());
                assert(kept@.map_values(|x: CookieEntry| x@) =~= before.push(x@));
            }
            i = i + 1;
        }
        assert(old_view.cookies.take(i as int) =~= old_view.cookies);
        let ghost d = delivered@;
        let ghost f = old_view.cookies.filter(keep);
        if delivered.len() > 0 {
            let ghost before = kept@.map_values(|x: CookieEntry| x@);
            kept.push(CookieEntry { cookie, delivered });
            assert(kept@.map_values(|x: CookieEntry| x@) =~= before.push(
                CookieEntryView { cookie: c, delivered: d },
            ));
        }
        self.cookies = kept;
        proof {
            let m = self@;
            lemma_filter_unique(old_view.cookies, keep, |x: CookieEntryView| x.cookie);
            assert forall|a: int| 0 <= a < f.len() implies #[trigger] f[a].cookie != c && old_view.cookies.contains(f[a]) by {
                lemma_filter_member(old_view.cookies, keep, a);
            }
            assert forall|a: int, b: int|
                0 <= a < m.cookies.len() && 0 <= b < m.cookies.len() && a != b implies #[trigger] m.cookies[a].cookie
                != #[trigger] m.cookies[b].cookie by {
                if a < f.len() && b < f.len() {
                    assert(m.cookies[a] == f[a] && m.cookies[b] == f[b]);
                    assert((|x: CookieEntryView| x.cookie)(f[a]) != (|x: CookieEntryView| x.cookie)(f[b]));
                } else if a < f.len() {
                    assert(m.cookies[a] == f[a]);
                    assert(f[a].cookie != c);
                } else if b < f.len() {
                    assert(m.cookies[b] == f[b]);
                    assert(f[b].cookie != c);
                }
            }
            assert(m.entries == old_view.entries);
            assert(m.timers == old_view.timers);
            assert forall|a: int| 0 <= a < m.cookies.len() implies #[trigger] m.cookies[a].delivered.len() > 0 by {
                if a < f.len() {
                    let j = choose|j: int| 0 <= j < old_view.cookies.len() && old_view.cookies[j] == f[a];
                    assert(old_view.cookies[j].delivered.len() > 0);
                }
            }
            assert forall|a: int, k: int|
                0 <= a < m.cookies.len() && 0 <= k < m.cookies[a].delivered.len() implies has_timer(
                m.timers,
                #[trigger] m.cookies[a].delivered[k],
            ) by {
                if a < f.len() {
                    let j = choose|j: int| 0 <= j < old_view.cookies.len() && old_view.cookies[j] == f[a];
                    assert(has_timer(old_view.timers, old_view.cookies[j].delivered[k]));
                } else {
                    assert(m.cookies[a].delivered == d);
                    assert(has_timer(old_view.timers, d[k]));
                }
            }
        }
    }

    /// Serves a discovery for `discover_namespace`, continuing after what was delivered under
    /// `cookie`, with at most `limit` registrations; the cookie handed out has the identifier
    /// `new_cookie_id`.
    pub fn get_with_cookie_id(
        &mut self,
        discover_namespace: Option<Namespace>,
        cookie: Option<Cookie>,
        limit: Option<u64>,
        new_cookie_id: u64,
    ) -> (r: Result<(Vec<Registration>, Cookie), CookieNamespaceMismatch>)
        requires
            old(self).wf(),
        ensures
            final(self).wf(),
            r is Err <==> cookie_mismatch(ns_view(discover_namespace), cookie_view(cookie)),
            match r {
                Err(_) => final(self)@ == old(self)@,
                Ok((regs, c)) => {
                    &&& c@ == (CookieView { id: new_cookie_id, namespace: ns_view(discover_namespace) })
                    &&& regs@.map_values(|x: Registration| x@) == registrations_of(
                        discovered(old(self)@, ns_view(discover_namespace), cookie_view(cookie), limit),
                    )
                    &&& final(self)@ == after_discover(
                        old(self)@,
                        ns_view(discover_namespace),
                        cookie_view(cookie),
                        limit,
                        c@,
                    )
                },
            },
    {
        let ghost nsv = ns_view(discover_namespace);
        let ghost cv = cookie_view(cookie);
        let ghost old_view = self@;
        let cookie_namespace: Option<&Namespace> = match &cookie {
            Some(c) => c.namespace(),
            None => None,
        };
        match (&discover_namespace, cookie_namespace) {
            (None, Some(_)) => {
                return Err(CookieNamespaceMismatch);
            },
            (Some(n), Some(bound)) => {
                if !n.same_as(bound) {
                    return Err(CookieNamespaceMismatch);
                }
            },
            _ => {},
        }
        let mut delivered: Vec<u64> = match &cookie {
            Some(c) => match self.find_cookie(c) {
                Some(i) => {
                    proof {
                        lemma_delivered_at(old_view.cookies, c@, i as int);
                    }
                    copy_ids(&self.cookies[i].delivered)
                },
                None => Vec::new(),
            },
            None => Vec::new(),
        };
        let ghost d = delivered@;
        assert(d == delivered_under(old_view.cookies, cv));
        let ghost sel = selectable(d, nsv);
        let cap: u64 = match limit {
            Some(l) => l,
            None => u64::MAX,
        };
        let mut regs: Vec<Registration> = Vec::new();
        let mut ids: Vec<u64> = Vec::new();
        let mut i: usize = 0;
        while i < self.entries.len() && (ids.len() as u64) < cap
            invariant
                i <= self.entries.len(),
                self@ == old_view,
                sel == selectable(d, nsv),
                nsv == ns_view(discover_namespace),
                delivered@ == d,
                cap == (match limit {
                    Some(l) => l,
                    None => u64::MAX,
                }),
                ids@ == ids_of(old_view.entries.take(i as int).filter(sel)),
                regs@.map_values(|x: Registration| x@) == registrations_of(
                    old_view.entries.take(i as int).filter(sel),
                ),
                ids@.len() <= cap,
                ids@.len() <= i,
            decreases self.entries.len() - i,
        {
            let x = &self.entries[i];
            let ghost chosen = old_view.entries.take(i as int).filter(sel);
            assert(old_view.entries.take(i + 1) =~= old_view.entries.take(i as int).push(x@));
            proof {
                old_view.entries.take(i as int).lemma_filter_push(x@, sel);
                old_view.entries.take(i as int).lemma_filter_len(sel);
            }
            assert(old_view.entries[i as int] == x@);
            let fresh = !holds_id(&delivered, x.id);
            let in_namespace = match &discover_namespace {
                Some(n) => n.same_as(&x.registration.namespace),
                None => true,
            };
            assert(sel(x@) == (fresh && in_namespace));
            if fresh && in_namespace {
                let ghost regs_before = regs@.map_values(|x: Registration| x@);
                let ghost ids_before = ids@;
                regs.push(x.registration.duplicate());
                ids.push(x.id);
                assert(regs@.map_values(|x: Registration| x@) =~= regs_before.push(x@.registration));
                assert(ids@ =~= ids_before.push(x@.id));
                assert(registrations_of(chosen.push(x@)) =~= registrations_of(chosen).push(x@.registration));
                assert(ids_of(chosen.push(x@)) =~= ids_of(chosen).push(x@.id));
            }
            i = i + 1;
        }
        let ghost chosen = old_view.entries.take(i as int).filter(sel);
        proof {
            let all = old_view.entries.filter(sel);
            lemma_filter_split(old_view.entries, sel, i as int);
            assert(all == chosen + old_view.entries.skip(i as int).filter(sel));
            if i == self.entries.len() {
                assert(old_view.entries.take(i as int) =~= old_view.entries);
                assert(old_view.entries.skip(i as int) =~= Seq::<EntryView>::empty());
                assert(old_view.entries.skip(i as int).filter(sel) =~= Seq::<EntryView>::empty()) by {
                    reveal(Seq::filter);
                }
                assert(all =~= chosen);
            } else {
                assert(ids@.len() == cap);
                assert(limit is Some);
                assert(chosen.len() == cap);
                assert(all.take(cap as int) =~= chosen);
            }
            assert(up_to(all, limit) == chosen);
        }
        let ghost delivered_now = ids@;
        delivered.append(&mut ids);
        assert(delivered@ == d + ids_of(chosen));
        let new_cookie = Cookie::with_id(new_cookie_id, duplicate_namespace(&discover_namespace));
        proof {
            assert forall|k: int| 0 <= k < delivered@.len() implies has_timer(old_view.timers, #[trigger] delivered@[k]) by {
                if k < d.len() {
                    if let Some(c) = cv {
                        let j = choose|j: int| 0 <= j < old_view.cookies.len() && #[trigger] old_view.cookies[j].cookie == c;
                        assert(has_timer(old_view.timers, old_view.cookies[j].delivered[k]));
                    }
                } else {
                    let a = k - d.len();
                    let all = old_view.entries.filter(sel);
                    lemma_filter_split(old_view.entries, sel, i as int);
                    assert(chosen[a] == all[a]);
                    lemma_filter_member(old_view.entries, sel, a);
                    let j = choose|j: int| 0 <= j < old_view.entries.len() && old_view.entries[j] == all[a];
                    assert(old_view.timers.contains((old_view.entries[j].expires_at, old_view.entries[j].id)));
                    let t = choose|t: int| 0 <= t < old_view.timers.len() && old_view.timers[t] == (old_view.entries[j].expires_at, old_view.entries[j].id);
                    assert(old_view.timers[t].1 == delivered@[k]);
                }
            }
        }
        self.remember(new_cookie.duplicate(), delivered);
        Ok((regs, new_cookie))
    }

    /// Serves a discovery for `discover_namespace`, continuing after what was delivered under
    /// `cookie`, with at most `limit` registrations, and hands out a fresh cookie.
    pub fn get(
        &mut self,
        discover_namespace: Option<Namespace>,
        cookie: Option<Cookie>,
        limit: Option<u64>,
    ) -> (r: Result<(Vec<Registration>, Cookie), CookieNamespaceMismatch>)
        requires
            old(self).wf(),
        ensures
            final(self).wf(),
            r is Err <==> cookie_mismatch(ns_view(discover_namespace), cookie_view(cookie)),
            match r {
                Err(_) => final(self)@ == old(self)@,
                Ok((regs, c)) => {
                    &&& c@.namespace == ns_view(discover_namespace)
                    &&& forall|k: int| 0 <= k < old(self)@.cookies.len() ==> #[trigger] old(self)@.cookies[k].cookie.id != c@.id
                    &&& regs@.map_values(|x: Registration| x@) == registrations_of(
                        discovered(old(self)@, ns_view(discover_namespace), cookie_view(cookie), limit),
                    )
                    &&& final(self)@ == after_discover(
                        old(self)@,
                        ns_view(discover_namespace),
                        cookie_view(cookie),
                        limit,
                        c@,
                    )
                },
            },
    {
        let id = self.fresh_cookie_id();
        self.get_with_cookie_id(discover_namespace, cookie, limit, id)
    }
}

impl Registrations {
    /// Where the earliest timer stands, if there is one.
    fn earliest_timer(&self) -> (r: Option<usize>)
        ensures
            match r {
                Some(k) => k < self@.timers.len() && forall|t: int|
                    0 <= t < self@.timers.len() ==> self@.timers[k as int].0 <= #[trigger] self@.timers[t].0,
                None => self@.timers.len() == 0,
            },
    {
        if self.timers.len() == 0 {
            return None;
        }
        let mut best: usize = 0;
        let mut i: usize = 1;
        while i < self.timers.len()
            invariant
                1 <= i <= self.timers.len(),
                best < i,
                forall|t: int| 0 <= t < i ==> self@.timers[best as int].0 <= #[trigger] self@.timers[t].0,
            decreases self.timers.len() - i,
        {
            if self.timers[i].0 < self.timers[best].0 {
                best = i;
            }
            i = i + 1;
        }
        Some(best)
    }

    /// The instant at which the next timer fires, if any is set.
    pub fn next_expiry(&self) -> (r: Option<u64>)
        ensures
            match r {
                Some(d) => exists|k: int| 0 <= k < self@.timers.len() && self@.timers[k].0 == d
                    && forall|t: int| 0 <= t < self@.timers.len() ==> d <= #[trigger] self@.timers[t].0,
                None => self@.timers.len() == 0,
            },
    {
        match self.earliest_timer() {
            Some(k) => Some(self.timers[k].0),
            None => None,
        }
    }

    /// Forgets that `id` was delivered under any cookie, and drops the cookies that name
    /// nothing more.
    fn forget_delivered(&mut self, id: u64)
        requires
            old(self).wf(),
        ensures
            final(self).wf(),
            final(self)@.entries == old(self)@.entries,
            final(self)@.timers == old(self)@.timers,
            final(self)@.min_ttl == old(self)@.min_ttl,
            final(self)@.max_ttl == old(self)@.max_ttl,
            forall|c: int, k: int|
                0 <= c < final(self)@.cookies.len() && 0 <= k < final(self)@.cookies[c].delivered.len()
                    ==> #[trigger] final(self)@.cookies[c].delivered[k] != id,
            final(self)@.cookies == forgotten(old(self)@.cookies, id),
    {
        let ghost old_view = self@;
        let ghost keep = other_id(id);
        let mut kept: Vec<CookieEntry> = Vec::new();
        let mut i: usize = 0;
        while i < self.cookies.len()
            invariant
                i <= self.cookies.len(),
                self@ == old_view,
                store_wf(old_view),
                forall|a: int| 0 <= a < kept@.len() ==> exists|j: int| 0 <= j < i && #[trigger] kept@[a]@.cookie == old_view.cookies[j].cookie,
                forall|a: int, b: int| 0 <= a < kept@.len() && 0 <= b < kept@.len() && a != b ==> #[trigger] kept@[a]@.cookie != #[trigger] kept@[b]@.cookie,
                forall|a: int| 0 <= a < kept@.len() ==> #[trigger] kept@[a]@.delivered.len() > 0,
                forall|a: int, k: int| 0 <= a < kept@.len() && 0 <= k < kept@[a]@.delivered.len() ==> #[trigger] kept@[a]@.delivered[k] != id && has_timer(old_view.timers, kept@[a]@.delivered[k]),
                keep == other_id(id),
                kept@.map_values(|c: CookieEntry| c@) == forgotten(old_view.cookies.take(i as int), id),
            decreases self.cookies.len() - i,
        {
            let x = &self.cookies[i];
            assert(old_view.cookies[i as int] == x@);
            let mut rest: Vec<u64> = Vec::new();
            let mut k: usize = 0;
            while k < x.delivered.len()
                invariant
                    k <= x.delivered.len(),
                    x@ == old_view.cookies[i as int],
                    i < old_view.cookies.len(),
                    store_wf(old_view),
                    forall|a: int| 0 <= a < rest@.len() ==> #[trigger] rest@[a] != id && has_timer(old_view.timers, rest@[a]),
                    keep == other_id(id),
                    rest@ == x@.delivered.take(k as int).filter(keep),
                decreases x.delivered.len() - k,
            {
                proof {
                    assert(x@.delivered.take(k + 1) =~= x@.delivered.take(k as int).push(x@.delivered[k as int]));
                    x@.delivered.take(k as int).lemma_filter_push(x@.delivered[k as int], keep);
                }
                if x.delivered[k] != id {
                    assert(has_timer(old_view.timers, old_view.cookies[i as int].delivered[k as int]));
                    rest.push(x.delivered[k]);
                }
                k = k + 1;
            }
            proof {
                assert(x@.delivered.take(k as int) =~= x@.delivered);
                assert(old_view.cookies.take(i + 1).drop_last() =~= old_view.cookies.take(i as int));
                assert(old_view.cookies.take(i + 1).last() == x@);
            }
            let ghost kept_view = kept@.map_values(|c: CookieEntry| c@);
            if rest.len() > 0 {
                let ghost kept_before = kept@;
                kept.push(CookieEntry { cookie: x.cookie.duplicate(), delivered: rest });
                assert(kept@.map_values(|c: CookieEntry| c@) =~= kept_view.push(without_id(x@, id)));
                assert forall|a: int| 0 <= a < kept_before.len() implies #[trigger] kept_before[a]@.cookie != x@.cookie by {
                    let j = choose|j: int| 0 <= j < i && #[trigger] kept_before[a]@.cookie == old_view.cookies[j].cookie;
                    assert(old_view.cookies[j].cookie != old_view.cookies[i as int].cookie);
                }
                assert forall|a: int| 0 <= a < kept@.len() implies exists|j: int| 0 <= j < i + 1 && #[trigger] kept@[a]@.cookie == old_view.cookies[j].cookie by {
                    if a < kept_before.len() {
                        assert(kept@[a] == kept_before[a]);
                        let j = choose|j: int| 0 <= j < i && #[trigger] kept_before[a]@.cookie == old_view.cookies[j].cookie;
                        assert(kept@[a]@.cookie == old_view.cookies[j].cookie);
                    } else {
                        assert(kept@[a]@.cookie == old_view.cookies[i as int].cookie);
                    }
                }
            }
            i = i + 1;
        }
        assert(old_view.cookies.take(i as int) =~= old_view.cookies);
        self.cookies = kept;
        proof {
            let m = self@;
            assert forall|a: int| 0 <= a < m.cookies.len() implies #[trigger] m.cookies[a] == kept@[a]@ by {}
            assert forall|a: int, b: int|
                0 <= a < m.cookies.len() && 0 <= b < m.cookies.len() && a != b implies #[trigger] m.cookies[a].cookie
                != #[trigger] m.cookies[b].cookie by {
                assert(m.cookies[a] == kept@[a]@ && m.cookies[b] == kept@[b]@);
            }
            assert forall|a: int| 0 <= a < m.cookies.len() implies #[trigger] m.cookies[a].delivered.len() > 0 by {
                assert(m.cookies[a] == kept@[a]@);
            }
            assert forall|a: int, k: int|
                0 <= a < m.cookies.len() && 0 <= k < m.cookies[a].delivered.len() implies has_timer(
                m.timers,
                #[trigger] m.cookies[a].delivered[k],
            ) && m.cookies[a].delivered[k] != id by {
                assert(m.cookies[a] == kept@[a]@);
                assert(kept@[a]@.delivered[k] != id);
            }
            assert(m.entries == old_view.entries);
            assert(m.timers == old_view.timers);
            assert(store_wf(old_view));
        }
    }

    /// Removes the timer at `k`, which no cookie and no registration depends on.
    fn drop_timer(&mut self, k: usize)
        requires
            old(self).wf(),
            k < old(self)@.timers.len(),
            forall|c: int, j: int|
                0 <= c < old(self)@.cookies.len() && 0 <= j < old(self)@.cookies[c].delivered.len()
                    ==> #[trigger] old(self)@.cookies[c].delivered[j] != old(self)@.timers[k as int].1,
            forall|i: int|
                0 <= i < old(self)@.entries.len() ==> (#[trigger] old(self)@.entries[i].expires_at, old(self)@.entries[i].id)
                    != old(self)@.timers[k as int],
        ensures
            final(self).wf(),
            final(self)@ == (StoreView { timers: old(self)@.timers.remove(k as int), ..old(self)@ }),
    {
        let ghost old_view = self@;
        self.timers.remove(k);
        proof {
            let m = self@;
            assert(m.timers == old_view.timers.remove(k as int));
            assert forall|i: int| 0 <= i < m.entries.len() implies m.timers.contains(
                (#[trigger] m.entries[i].expires_at, m.entries[i].id),
            ) by {
                let pair = (old_view.entries[i].expires_at, old_view.entries[i].id);
                assert(old_view.timers.contains(pair));
                let t = choose|t: int| 0 <= t < old_view.timers.len() && old_view.timers[t] == pair;
                if t < k {
                    assert(m.timers[t] == pair);
                } else {
                    assert(t != k);
                    assert(m.timers[t - 1] == pair);
                }
            }
            assert forall|c: int, j: int|
                0 <= c < m.cookies.len() && 0 <= j < m.cookies[c].delivered.len() implies has_timer(
                m.timers,
                #[trigger] m.cookies[c].delivered[j],
            ) by {
                let x = m.cookies[c].delivered[j];
                assert(has_timer(old_view.timers, x));
                let t = choose|t: int| 0 <= t < old_view.timers.len() && #[trigger] old_view.timers[t].1 == x;
                if t < k {
                    assert(m.timers[t].1 == x);
                } else {
                    assert(t != k);
                    assert(m.timers[t - 1].1 == x);
                }
            }
        }
    }

    /// Where the registration with identifier `id` stands, if it is stored.
    fn position_of_id(&self, id: u64) -> (r: Option<usize>)
        ensures
            match r {
                Some(i) => i < self@.entries.len() && self@.entries[i as int].id == id,
                None => forall|i: int| 0 <= i < self@.entries.len() ==> #[trigger] self@.entries[i].id != id,
            },
    {
        let mut i: usize = 0;
        while i < self.entries.len()
            invariant
                i <= self.entries.len(),
                forall|j: int| 0 <= j < i ==> #[trigger] self@.entries[j].id != id,
            decreases self.entries.len() - i,
        {
            assert(self@.entries[i as int].id == self.entries[i as int].id);
            if self.entries[i].id == id {
                return Some(i);
            }
            i = i + 1;
        }
        None
    }

    /// Fires the timers that are due at `now` (milliseconds of wall-clock time), earliest
    /// first, until one expires a registration that is still stored and due; that
    /// registration is removed and handed out.
    pub fn poll_at(&mut self, now: u64) -> (r: Option<Registration>)
        requires
            old(self).wf(),
        ensures
            final(self).wf(),
            final(self)@.min_ttl == old(self)@.min_ttl,
            final(self)@.max_ttl == old(self)@.max_ttl,
            match r {
                Some(reg) => exists|i: int|
                    0 <= i < old(self)@.entries.len() && old(self)@.entries[i].expires_at <= now
                        && reg@ == old(self)@.entries[i].registration && final(self)@.entries == old(
                        self,
                    )@.entries.remove(i),
                None => final(self)@.entries == old(self)@.entries && forall|i: int|
                    0 <= i < old(self)@.entries.len() ==> now < #[trigger] old(self)@.entries[i].expires_at,
            },
            exists|fired: Seq<(u64, u64)>|
                #[trigger] fired_between(old(self)@, final(self)@, fired, now) && (forall|j: int, i: int|
                    0 <= j < fired.len() && 0 <= i < final(self)@.entries.len() ==> #[trigger] fired[j].1
                        != #[trigger] final(self)@.entries[i].id) && match r {
                    Some(reg) => fired.len() > 0 && exists|i: int|
                        0 <= i < old(self)@.entries.len() && old(self)@.entries[i].id == fired.last().1
                            && reg@ == old(self)@.entries[i].registration && final(self)@.entries
                            == old(self)@.entries.remove(i),
                    None => forall|t: int|
                        0 <= t < final(self)@.timers.len() ==> now < (#[trigger] final(self)@.timers[t]).0,
                },
    {
        broadcast use vstd::seq_lib::group_to_multiset_ensures;
        let ghost old_view = self@;
        let ghost mut fired: Seq<(u64, u64)> = Seq::empty();
        assert(old_view.timers.to_multiset() =~= self@.timers.to_multiset().add(fired.to_multiset()));
        assert(forgotten_all(old_view.cookies, fired) == old_view.cookies);
        loop
            invariant
                self.wf(),
                old_view == old(self)@,
                fired_between(old_view, self@, fired, now),
                forall|j: int, i: int|
                    0 <= j < fired.len() && 0 <= i < self@.entries.len() ==> #[trigger] fired[j].1
                        != #[trigger] self@.entries[i].id,
                self@.entries == old_view.entries,
                self@.min_ttl == old_view.min_ttl,
                self@.max_ttl == old_view.max_ttl,
            decreases self.timers.len(),
        {
            let k = match self.earliest_timer() {
                Some(k) => k,
                None => {
                    proof {
                        assert forall|i: int| 0 <= i < old_view.entries.len() implies now < #[trigger] old_view.entries[i].expires_at by {
                            assert(self@.timers.contains((old_view.entries[i].expires_at, old_view.entries[i].id)));
                        }
                        assert(fired_between(old_view, self@, fired, now));
                    }
                    return None;
                },
            };
            let (deadline, id) = self.timers[k];
            if deadline > now {
                proof {
                    assert forall|i: int| 0 <= i < old_view.entries.len() implies now < #[trigger] old_view.entries[i].expires_at by {
                        assert(self@.timers.contains((old_view.entries[i].expires_at, old_view.entries[i].id)));
                        let t = choose|t: int| 0 <= t < self@.timers.len() && self@.timers[t] == (old_view.entries[i].expires_at, old_view.entries[i].id);
                        assert(self@.timers[k as int].0 <= self@.timers[t].0);
                    }
                    assert forall|t: int| 0 <= t < self@.timers.len() implies now < (#[trigger] self@.timers[t]).0 by {
                        assert(self@.timers[k as int].0 <= self@.timers[t].0);
                    }
                    assert(fired_between(old_view, self@, fired, now));
                }
                return None;
            }
            let ghost pre = self@;
            let ghost t = self@.timers[k as int];
            self.forget_delivered(id);
            let ghost before_entries = self@.entries;
            let expired = match self.position_of_id(id) {
                Some(i) => {
                    if self.entries[i].expires_at <= now {
                        let e = self.entries.remove(i);
                        proof {
                            assert(self@.entries =~= before_entries.remove(i as int));
                            let m = self@;
                            assert forall|a: int, b: int|
                                0 <= a < m.entries.len() && 0 <= b < m.entries.len() && a != b implies #[trigger] m.entries[a].id
                                != #[trigger] m.entries[b].id && !same_key(m.entries[a], m.entries[b]) by {
                                let a2 = if a < i { a } else { a + 1 };
                                let b2 = if b < i { b } else { b + 1 };
                                assert(m.entries[a] == before_entries[a2] && m.entries[b] == before_entries[b2]);
                            }
                            assert forall|a: int| 0 <= a < m.entries.len() implies m.timers.contains(
                                (#[trigger] m.entries[a].expires_at, m.entries[a].id),
                            ) by {
                                let a2 = if a < i { a } else { a + 1 };
                                assert(m.entries[a] == before_entries[a2]);
                            }
                            assert forall|a: int| 0 <= a < m.entries.len() implies (#[trigger] m.entries[a].expires_at, m.entries[a].id) != m.timers[k as int] by {
                                let a2 = if a < i { a } else { a + 1 };
                                assert(m.entries[a] == before_entries[a2]);
                                assert(a2 != i);
                            }
                        }
                        Some(e.registration)
                    } else {
                        proof {
                            assert(pre.timers[k as int].1 == pre.entries[i as int].id);
                        }
                        None
                    }
                },
                None => None,
            };
            self.drop_timer(k);
            proof {
                let post = self@;
                let f2 = fired.push(t);
                assert(f2.drop_last() =~= fired);
                assert(f2.last() == t);
                assert(post.cookies == forgotten_all(old_view.cookies, f2));
                assert(post.timers == pre.timers.remove(k as int));
                vstd::seq_lib::to_multiset_remove(pre.timers, k as int);
                pre.timers.to_multiset_ensures();
                assert(pre.timers.contains(t));
                assert(pre.timers.to_multiset().count(t) > 0);
                assert(pre.timers.to_multiset() =~= post.timers.to_multiset().insert(t));
                vstd::seq_lib::to_multiset_build(fired, t);
                assert(f2.to_multiset() =~= fired.to_multiset().insert(t));
                assert(old_view.timers.to_multiset() =~= post.timers.to_multiset().add(f2.to_multiset()));
                assert forall|j: int| 0 <= j < f2.len() implies (#[trigger] f2[j]).0 <= now by {
                    if j < fired.len() {
                        assert(f2[j] == fired[j]);
                    }
                }
                if expired is None {
                    assert(self@.entries == pre.entries);
                    assert forall|a: int| 0 <= a < self@.entries.len() implies #[trigger] self@.entries[a].id != t.1 by {
                        if self@.entries[a].id == t.1 {
                            assert(pre.timers[k as int].1 == pre.entries[a].id);
                        }
                    }
                }
                fired = f2;
                assert(fired_between(old_view, self@, fired, now));
            }
            if let Some(reg) = expired {
                return Some(reg);
            }
        }
    }

    /// Fires the timers that are due now, as [`Registrations::poll_at`] does at the current
    /// wall-clock time.
    pub fn poll(&mut self) -> (r: Option<Registration>)
        requires
            old(self).wf(),
        ensures
            final(self).wf(),
            final(self)@.min_ttl == old(self)@.min_ttl,
            final(self)@.max_ttl == old(self)@.max_ttl,
            match r {
                Some(reg) => exists|i: int|
                    0 <= i < old(self)@.entries.len() && reg@ == old(self)@.entries[i].registration
                        && final(self)@.entries == old(self)@.entries.remove(i),
                None => final(self)@.entries == old(self)@.entries,
            },
            exists|now: u64, fired: Seq<(u64, u64)>|
                #[trigger] fired_between(old(self)@, final(self)@, fired, now) && match r {
                    Some(reg) => fired.len() > 0 && exists|i: int|
                        0 <= i < old(self)@.entries.len() && old(self)@.entries[i].id == fired.last().1
                            && old(self)@.entries[i].expires_at <= now
                            && reg@ == old(self)@.entries[i].registration && final(self)@.entries
                            == old(self)@.entries.remove(i),
                    None => final(self)@.entries == old(self)@.entries,
                },
    {
        let now = now_millis();
        self.poll_at(now)
    }

    /// Adds a registration made now under a fresh identifier, or refuses a time to live
    /// outside the bounds.
    pub fn add(&mut self, new_registration: NewRegistration) -> (r: Result<
        Registration,
        TtlOutOfRange,
    >)
        requires
            old(self).wf(),
        ensures
            final(self).wf(),
            ({
                let ttl = effective_ttl(new_registration.ttl);
                match r {
                    Err(TtlOutOfRange::TooLong { bound, requested }) => ttl > old(self)@.max_ttl
                        && bound == old(self)@.max_ttl && requested == ttl && final(self)@ == old(
                        self,
                    )@,
                    Err(TtlOutOfRange::TooShort { bound, requested }) => ttl <= old(self)@.max_ttl
                        && ttl < old(self)@.min_ttl && bound == old(self)@.min_ttl && requested
                        == ttl && final(self)@ == old(self)@,
                    Ok(reg) => old(self)@.min_ttl <= ttl <= old(self)@.max_ttl && reg@ == (
                    RegistrationView {
                        namespace: new_registration.namespace@,
                        peer: new_registration.record@.peer,
                        envelope: new_registration.record@.envelope,
                        ttl,
                    }) && exists|id: u64, now: u64|
                        !has_timer(old(self)@.timers, id) && final(self)@ == added(
                            old(self)@,
                            EntryView { id, registration: reg@, expires_at: expiry_time(now, ttl) },
                        ),
                }
            }),
    {
        let now = now_millis();
        let id = self.fresh_registration_id();
        self.add_at(new_registration, now, id)
    }
}

impl Default for Registrations {
    fn default() -> (r: Self)
        ensures
            r.wf(),
            r@.entries.len() == 0,
            r@.cookies.len() == 0,
            r@.timers.len() == 0,
            r@.min_ttl == MIN_TTL,
            r@.max_ttl == MAX_TTL,
    {
        Registrations::with_config(Config::default())
    }
}

/// Entries that register `peer`.
pub open spec fn of_peer(peer: Seq<u8>) -> spec_fn(EntryView) -> bool {
    |x: EntryView| x.registration.peer == peer
}

/// Filtering keeps nothing where nothing passes.
proof fn lemma_filter_none<A>(s: Seq<A>, p: spec_fn(A) -> bool)
    requires
        forall|i: int| 0 <= i < s.len() ==> !p(#[trigger] s[i]),
    ensures
        s.filter(p) == Seq::<A>::empty(),
    decreases s.len(),
{
    reveal(Seq::filter);
    if s.len() > 0 {
        let d = s.drop_last();
        assert forall|i: int| 0 <= i < d.len() implies !p(#[trigger] d[i]) by {
            assert(d[i] == s[i]);
        }
        lemma_filter_none(d, p);
        assert(!p(s[s.len() - 1]));
    }
    assert(s.filter(p) =~= Seq::<A>::empty());
}

/// A second registration of a peer under a namespace replaces the first: a discovery of that
/// namespace then finds exactly one registration of the peer, the later one.
pub proof fn lemma_reregistration_replaces(m: StoreView, first: EntryView, second: EntryView)
    requires
        same_key(first, second),
    ensures
        added(added(m, first), second).entries.filter(
            not_keyed(second.registration.peer, second.registration.namespace),
        ).len() + 1 == added(added(m, first), second).entries.len(),
        discovered(
            added(added(m, first), second),
            Some(second.registration.namespace),
            None,
            None,
        ).filter(of_peer(second.registration.peer)) == seq![second],
{
    let m2 = added(added(m, first), second);
    let rest = added(m, first).entries.filter(survives(second));
    let ns = second.registration.namespace;
    let peer = second.registration.peer;
    assert(m2.entries == rest.push(second));
    assert forall|i: int| 0 <= i < rest.len() implies #[trigger] rest[i].id != second.id && !same_key(
        rest[i],
        second,
    ) by {
        lemma_filter_member(added(m, first).entries, survives(second), i);
    }
    // Every earlier entry is kept when the key goes.
    let kn = not_keyed(peer, ns);
    assert forall|i: int| 0 <= i < rest.len() implies kn(#[trigger] rest[i]) by {}
    lemma_filter_all(rest, kn);
    rest.lemma_filter_push(second, kn);
    assert(m2.entries.filter(kn) == rest);
    // A discovery of the namespace finds the second entry and no other of the peer.
    let d = delivered_under(m2.cookies, None);
    let sel = selectable(d, Some(ns));
    assert(d =~= Seq::<u64>::empty());
    rest.lemma_filter_push(second, sel);
    assert(sel(second));
    let found = rest.filter(sel);
    assert(m2.entries.filter(sel) == found.push(second));
    assert(discovered(m2, Some(ns), None, None) == found.push(second));
    let op = of_peer(peer);
    assert forall|i: int| 0 <= i < found.len() implies !op(#[trigger] found[i]) by {
        lemma_filter_member(rest, sel, i);
        let j = choose|j: int| 0 <= j < rest.len() && rest[j] == found[i];
        assert(!same_key(rest[j], second));
    }
    lemma_filter_none(found, op);
    found.lemma_filter_push(second, op);
    assert(found.filter(op).push(second) =~= seq![second]);
}

/// Filtering keeps everything where everything passes.
proof fn lemma_filter_all<A>(s: Seq<A>, p: spec_fn(A) -> bool)
    requires
        forall|i: int| 0 <= i < s.len() ==> p(#[trigger] s[i]),
    ensures
        s.filter(p) == s,
    decreases s.len(),
{
    reveal(Seq::filter);
    if s.len() > 0 {
        let d = s.drop_last();
        assert forall|i: int| 0 <= i < d.len() implies p(#[trigger] d[i]) by {
            assert(d[i] == s[i]);
        }
        lemma_filter_all(d, p);
        assert(p(s[s.len() - 1]));
        assert(d.push(s.last()) =~= s);
    }
}

/// Elements of a discovery come from the selectable entries of the store.
proof fn lemma_discovered_member(
    m: StoreView,
    namespace: Option<Seq<char>>,
    cookie: Option<CookieView>,
    limit: Option<u64>,
    a: int,
)
    requires
        0 <= a < discovered(m, namespace, cookie, limit).len(),
    ensures
        m.entries.contains(discovered(m, namespace, cookie, limit)[a]),
        selectable(delivered_under(m.cookies, cookie), namespace)(
            discovered(m, namespace, cookie, limit)[a],
        ),
{
    let all = m.entries.filter(selectable(delivered_under(m.cookies, cookie), namespace));
    assert(discovered(m, namespace, cookie, limit)[a] == all[a]);
    lemma_filter_member(m.entries, selectable(delivered_under(m.cookies, cookie), namespace), a);
}

/// Along a chain of discoveries, each continuing under the cookie the previous one handed
/// out, no registration is delivered twice: not within one page, and not in two pages.
pub proof fn lemma_cookie_chain_delivers_once(
    m: StoreView,
    namespace: Option<Seq<char>>,
    cookie: Option<CookieView>,
    first_limit: Option<u64>,
    next_cookie: CookieView,
    second_limit: Option<u64>,
)
    requires
        store_wf(m),
    ensures
        ({
            let first = discovered(m, namespace, cookie, first_limit);
            let m1 = after_discover(m, namespace, cookie, first_limit, next_cookie);
            let second = discovered(m1, namespace, Some(next_cookie), second_limit);
            &&& ids_of(first).no_duplicates()
            &&& forall|a: int, b: int|
                0 <= a < first.len() && 0 <= b < second.len() ==> #[trigger] first[a].id
                    != #[trigger] second[b].id
        }),
{
    let first = discovered(m, namespace, cookie, first_limit);
    let m1 = after_discover(m, namespace, cookie, first_limit, next_cookie);
    let second = discovered(m1, namespace, Some(next_cookie), second_limit);
    let dd = delivered_under(m.cookies, cookie) + ids_of(first);
    let all = m.entries.filter(selectable(delivered_under(m.cookies, cookie), namespace));
    lemma_filter_unique(
        m.entries,
        selectable(delivered_under(m.cookies, cookie), namespace),
        |x: EntryView| x.id,
    );
    assert forall|a: int, b: int|
        0 <= a < ids_of(first).len() && 0 <= b < ids_of(first).len() && a != b implies ids_of(
        first,
    )[a] != ids_of(first)[b] by {
        assert(first[a] == all[a] && first[b] == all[b]);
        assert((|x: EntryView| x.id)(all[a]) != (|x: EntryView| x.id)(all[b]));
    }
    assert forall|a: int, b: int|
        0 <= a < first.len() && 0 <= b < second.len() implies #[trigger] first[a].id
        != #[trigger] second[b].id by {
        let keep = other_cookie(next_cookie);
        let f = m.cookies.filter(keep);
        assert(dd.len() > 0) by {
            assert(dd[delivered_under(m.cookies, cookie).len() + a] == ids_of(first)[a]);
        }
        assert(m1.cookies == f.push(CookieEntryView { cookie: next_cookie, delivered: dd }));
        let last = f.len() as int;
        assert(m1.cookies[last].cookie == next_cookie);
        let j = choose|j: int| 0 <= j < m1.cookies.len() && #[trigger] m1.cookies[j].cookie == next_cookie;
        if j < last {
            lemma_filter_member(m.cookies, keep, j);
            assert(m1.cookies[j] == f[j]);
        }
        assert(delivered_under(m1.cookies, Some(next_cookie)) == dd);
        lemma_discovered_member(m1, namespace, Some(next_cookie), second_limit, b);
        assert(!dd.contains(second[b].id));
        assert(dd[delivered_under(m.cookies, cookie).len() + a] == first[a].id);
    }
}

/// A cookie bound to one namespace is refused for a discovery of another namespace, and for
/// a discovery of all namespaces.
pub proof fn lemma_foreign_cookie_refused(namespace: Option<Seq<char>>, cookie: CookieView)
    requires
        cookie.namespace is Some,
        namespace != cookie.namespace,
    ensures
        cookie_mismatch(namespace, Some(cookie)),
{
}

/// A registration made at `now` with `ttl` expires no earlier than `ttl` seconds later; it
/// expires exactly then where that instant is representable.
pub proof fn lemma_expiry_not_early(now: u64, ttl: Ttl)
    ensures
        expiry_time(now, ttl) >= now,
        now + ttl * 1000 <= u64::MAX ==> expiry_time(now, ttl) == now + ttl * 1000,
        now + ttl * 1000 > u64::MAX ==> expiry_time(now, ttl) == u64::MAX,
{
    assert(ttl * 1000 >= 0) by (nonlinear_arith);
}

/// A cookie whose delivered registrations have all expired, their timers fired, is not
/// remembered by a store.
pub proof fn lemma_cookie_dropped_after_expiry(m: StoreView, c: CookieView)
    requires
        store_wf(m),
        forall|i: int, k: int|
            0 <= i < m.cookies.len() && m.cookies[i].cookie == c && 0 <= k
                < m.cookies[i].delivered.len() ==> !has_timer(m.timers, #[trigger] m.cookies[i].delivered[k]),
    ensures
        forall|i: int| 0 <= i < m.cookies.len() ==> #[trigger] m.cookies[i].cookie != c,
{
    assert forall|i: int| 0 <= i < m.cookies.len() implies #[trigger] m.cookies[i].cookie != c by {
        assert(m.cookies[i].delivered.len() > 0);
        assert(has_timer(m.timers, m.cookies[i].delivered[0]));
    }
}

/// What the rendezvous point reports to its host.
#[derive(Debug)]
pub enum Event {
    /// A discover request from a peer was served.
    DiscoverServed { enquirer: PeerId, registrations: Vec<Registration> },
    /// A discover request from a peer was refused.
    DiscoverNotServed { enquirer: PeerId, error: ErrorCode },
    /// A peer registered.
    PeerRegistered { peer: PeerId, registration: Registration },
    /// A registration from a peer was refused.
    PeerNotRegistered { peer: PeerId, namespace: Namespace, error: ErrorCode },
    /// A peer unregistered.
    PeerUnregistered { peer: PeerId, namespace: Namespace },
    /// A registration expired.
    RegistrationExpired(Registration),
}

/// The views of a sequence of registrations.
pub open spec fn registration_views(regs: Seq<Registration>) -> Seq<RegistrationView> {
    regs.map_values(|x: Registration| x@)
}

/// Copies a sequence of registrations.
fn duplicate_registrations(regs: &Vec<Registration>) -> (r: Vec<Registration>)
    ensures
        registration_views(r@) == registration_views(regs@),
{
    let mut out: Vec<Registration> = Vec::new();
    let mut i: usize = 0;
    while i < regs.len()
        invariant
            i <= regs.len(),
            registration_views(out@) == registration_views(regs@.take(i as int)),
        decreases regs.len() - i,
    {
        let ghost before = out@;
        out.push(regs[i].duplicate());
        assert(registration_views(out@) =~= registration_views(before).push(regs@[i as int]@));
        assert(regs@.take(i + 1) =~= regs@.take(i as int).push(regs@[i as int]));
        assert(registration_views(regs@.take(i + 1)) =~= registration_views(regs@.take(i as int)).push(regs@[i as int]@));
        i = i + 1;
    }
    assert(regs@.take(i as int) =~= regs@);
    out
}

/// The answer `r` to `message` from the peer `from`, with the store going from `before` to `after`,
/// where a registration is made at `now` under `id` and a cookie handed out has `cookie_id`.
pub open spec fn answers(
    from: Seq<u8>,
    message: Message,
    before: StoreView,
    after: StoreView,
    r: Option<(Event, Option<Message>)>,
    now: u64,
    id: u64,
    cookie_id: u64,
) -> bool {
    match message {
        Message::Register(nr) => {
            let ttl = effective_ttl(nr.ttl);
            let m = before;
            if nr.record@.peer != from {
                &&& after == m
                &&& r matches Some((Event::PeerNotRegistered { peer, namespace, error }, Some(Message::RegisterResponse(Err(e)))))
                &&& peer@ == from && namespace@ == nr.namespace@
                &&& error == ErrorCode::NotAuthorized && e == ErrorCode::NotAuthorized
            } else if ttl < m.min_ttl || ttl > m.max_ttl {
                &&& after == m
                &&& r matches Some((Event::PeerNotRegistered { peer, namespace, error }, Some(Message::RegisterResponse(Err(e)))))
                &&& peer@ == from && namespace@ == nr.namespace@
                &&& error == ErrorCode::InvalidTtl && e == ErrorCode::InvalidTtl
            } else {
                &&& r matches Some((Event::PeerRegistered { peer, registration }, Some(Message::RegisterResponse(Ok(t)))))
                &&& peer@ == from && t == ttl
                &&& registration@ == (RegistrationView {
                    namespace: nr.namespace@,
                    peer: nr.record@.peer,
                    envelope: nr.record@.envelope,
                    ttl,
                })
                &&& after == added(
                    m,
                    EntryView { id, registration: registration@, expires_at: expiry_time(now, ttl) },
                )
            }
        },
        Message::Unregister(namespace) => {
            &&& after == removed(before, from, namespace@)
            &&& r matches Some((Event::PeerUnregistered { peer, namespace: n }, None))
            &&& peer@ == from && n@ == namespace@
        },
        Message::Discover { namespace, cookie, limit } => {
            let m = before;
            if cookie_mismatch(ns_view(namespace), cookie_view(cookie)) {
                &&& after == m
                &&& r matches Some((Event::DiscoverNotServed { enquirer, error }, Some(Message::DiscoverResponse(Err(e)))))
                &&& enquirer@ == from
                &&& error == ErrorCode::InvalidCookie && e == ErrorCode::InvalidCookie
            } else {
                let found = registrations_of(discovered(m, ns_view(namespace), cookie_view(cookie), limit));
                let handed = CookieView { id: cookie_id, namespace: ns_view(namespace) };
                &&& after == after_discover(m, ns_view(namespace), cookie_view(cookie), limit, handed)
                &&& r matches Some((Event::DiscoverServed { enquirer, registrations: served }, Some(Message::DiscoverResponse(Ok((sent, c))))))
                &&& enquirer@ == from
                &&& registration_views(served@) == found
                &&& registration_views(sent@) == found
                &&& c@ == handed
            }
        },
        _ => r is None && after == before,
    }
}

/// Answers a request from `peer_id`, with `now` as the time of a registration, `id` as its
/// identifier, and `cookie_id` as the identifier of a cookie handed out. Returns the event to
/// report and the response to send, or nothing for a message that is no request.
pub fn handle_request_at(
    peer_id: PeerId,
    message: Message,
    registrations: &mut Registrations,
    now: u64,
    id: u64,
    cookie_id: u64,
) -> (r: Option<(Event, Option<Message>)>)
    requires
        old(registrations).wf(),
        !has_timer(old(registrations)@.timers, id),
    ensures
        final(registrations).wf(),
        answers(peer_id@, message, old(registrations)@, final(registrations)@, r, now, id, cookie_id),
{
    match message {
        Message::Register(registration) => {
            if !registration.record.peer_id().same_as(&peer_id) {
                let error = ErrorCode::NotAuthorized;
                let event = Event::PeerNotRegistered {
                    peer: peer_id,
                    namespace: registration.namespace,
                    error,
                };
                return Some((event, Some(Message::RegisterResponse(Err(error)))));
            }
            let namespace = registration.namespace.duplicate();
            match registrations.add_at(registration, now, id) {
                Ok(registration) => {
                    let response = Message::RegisterResponse(Ok(registration.ttl));
                    let event = Event::PeerRegistered { peer: peer_id, registration };
                    Some((event, Some(response)))
                },
                Err(_) => {
                    let error = ErrorCode::InvalidTtl;
                    let response = Message::RegisterResponse(Err(error));
                    let event = Event::PeerNotRegistered { peer: peer_id, namespace, error };
                    Some((event, Some(response)))
                },
            }
        },
        Message::Unregister(namespace) => {
            registrations.remove(namespace.duplicate(), peer_id.duplicate());
            let event = Event::PeerUnregistered { peer: peer_id, namespace };
            Some((event, None))
        },
        Message::Discover { namespace, cookie, limit } => {
            match registrations.get_with_cookie_id(namespace, cookie, limit, cookie_id) {
                Ok((discovered, cookie)) => {
                    let sent = duplicate_registrations(&discovered);
                    let response = Message::DiscoverResponse(Ok((sent, cookie)));
                    let event = Event::DiscoverServed {
                        enquirer: peer_id,
                        registrations: discovered,
                    };
                    Some((event, Some(response)))
                },
                Err(_) => {
                    let error = ErrorCode::InvalidCookie;
                    let response = Message::DiscoverResponse(Err(error));
                    let event = Event::DiscoverNotServed { enquirer: peer_id, error };
                    Some((event, Some(response)))
                },
            }
        },
        Message::RegisterResponse(_) => None,
        Message::DiscoverResponse(_) => None,
    }
}

/// Answers a request from `peer_id` at the current time, with fresh identifiers.
pub fn handle_request(peer_id: PeerId, message: Message, registrations: &mut Registrations) -> (r:
    Option<(Event, Option<Message>)>)
    requires
        old(registrations).wf(),
    ensures
        final(registrations).wf(),
        exists|now: u64, id: u64, cookie_id: u64|
            #[trigger] answers(peer_id@, message, old(registrations)@, final(registrations)@, r, now, id, cookie_id)
                && !has_timer(old(registrations)@.timers, id) && forall|k: int|
                0 <= k < old(registrations)@.cookies.len() ==> #[trigger] old(registrations)@.cookies[k].cookie.id != cookie_id,
{
    let now = now_millis();
    let id = registrations.fresh_registration_id();
    let cookie_id = registrations.fresh_cookie_id();
    let ghost message_in = message;
    let r = handle_request_at(peer_id, message, registrations, now, id, cookie_id);
    assert(answers(peer_id@, message_in, old(registrations)@, registrations@, r, now, id, cookie_id));
    r
}

/// A rendezvous point: the registration store, served to peers through requests.
pub struct Behaviour {
    registrations: Registrations,
}

impl Behaviour {
    pub closed spec fn store(&self) -> StoreView {
        self.registrations@
    }

    pub closed spec fn wf(&self) -> bool {
        self.registrations.wf()
    }

    /// A rendezvous point with an empty store bound by `config`.
    pub fn new(config: Config) -> (r: Self)
        ensures
            r.wf(),
            r.store().entries.len() == 0,
            r.store().cookies.len() == 0,
            r.store().timers.len() == 0,
            r.store().min_ttl == config.spec_min_ttl(),
            r.store().max_ttl == config.spec_max_ttl(),
    {
        Behaviour { registrations: Registrations::with_config(config) }
    }

    /// The registration store.
    pub fn registrations(&self) -> (r: &Registrations)
        ensures
            r@ == self.store(),
            r.wf() == self.wf(),
    {
        &self.registrations
    }

    /// Answers a request from `peer_id`, as [`handle_request`] does.
    pub fn on_request(&mut self, peer_id: PeerId, message: Message) -> (r: Option<(Event, Option<Message>)>)
        requires
            old(self).wf(),
        ensures
            final(self).wf(),
            exists|now: u64, id: u64, cookie_id: u64|
                answers(peer_id@, message, old(self).store(), final(self).store(), r, now, id, cookie_id),
    {
        let ghost from = peer_id@;
        let ghost m = message;
        let r = handle_request(peer_id, message, &mut self.registrations);
        proof {
            let (now, id, cookie_id) = choose|now: u64, id: u64, cookie_id: u64|
                answers(from, m, old(self).store(), self.registrations@, r, now, id, cookie_id);
            assert(answers(from, m, old(self).store(), self.store(), r, now, id, cookie_id));
        }
        r
    }

    /// Reports a registration that expired, if one is due.
    pub fn poll(&mut self) -> (r: Option<Event>)
        requires
            old(self).wf(),
        ensures
            final(self).wf(),
            match r {
                Some(Event::RegistrationExpired(reg)) => exists|i: int|
                    0 <= i < old(self).store().entries.len() && reg@ == old(self).store().entries[i].registration
                        && final(self).store().entries == old(self).store().entries.remove(i),
                Some(_) => false,
                None => final(self).store().entries == old(self).store().entries,
            },
    {
        let ghost before = self.registrations@;
        match self.registrations.poll() {
            Some(reg) => {
                proof {
                    let i = choose|i: int|
                        0 <= i < before.entries.len() && reg@ == before.entries[i].registration
                            && self.registrations@.entries == before.entries.remove(i);
                    assert(0 <= i < old(self).store().entries.len() && reg@ == old(self).store().entries[i].registration
                        && self.store().entries == old(self).store().entries.remove(i));
                }
                Some(Event::RegistrationExpired(reg))
            },
            None => None,
        }
    }
}

impl Registrations {
    /// The number of cookies the store remembers.
    pub fn cookie_count(&self) -> (r: usize)
        ensures
            r == self@.cookies.len(),
    {
        self.cookies.len()
    }

    /// The number of registrations stored.
    pub fn len(&self) -> (r: usize)
        ensures
            r == self@.entries.len(),
    {
        self.entries.len()
    }
}

/// An expiry prunes the remembered cookies: each cookie left stands for one that was there,
/// names what that one named but the expired identifier, and names something.
pub proof fn lemma_expiry_prunes(cookies: Seq<CookieEntryView>, id: u64)
    ensures
        forall|a: int|
            0 <= a < forgotten(cookies, id).len() ==> {
                let c = #[trigger] forgotten(cookies, id)[a];
                &&& c.delivered.len() > 0
                &&& !c.delivered.contains(id)
                &&& exists|o: int|
                    0 <= o < cookies.len() && c == without_id(#[trigger] cookies[o], id)
            },
    decreases cookies.len(),
{
    if cookies.len() > 0 {
        let d = cookies.drop_last();
        lemma_expiry_prunes(d, id);
        let rest = forgotten(d, id);
        let c = without_id(cookies.last(), id);
        assert forall|a: int| 0 <= a < forgotten(cookies, id).len() implies {
            let x = #[trigger] forgotten(cookies, id)[a];
            &&& x.delivered.len() > 0
            &&& !x.delivered.contains(id)
            &&& exists|o: int| 0 <= o < cookies.len() && x == without_id(#[trigger] cookies[o], id)
        } by {
            let x = forgotten(cookies, id)[a];
            if a < rest.len() {
                assert(x == rest[a]);
                let o = choose|o: int| 0 <= o < d.len() && rest[a] == without_id(#[trigger] d[o], id);
                assert(cookies[o] == d[o]);
            } else {
                assert(x == c);
                assert(cookies[cookies.len() - 1] == cookies.last());
                if c.delivered.contains(id) {
                    let k = choose|k: int| 0 <= k < c.delivered.len() && c.delivered[k] == id;
                    cookies.last().delivered.lemma_filter_pred(other_id(id), k);
                }
            }
        }
    }
}

/// Once the timers of every registration a cookie names went off, the cookie is dropped: no
/// cookie left names only expired identifiers.
pub proof fn lemma_cookie_dropped_when_all_fired(cookies: Seq<CookieEntryView>, id: u64, c: CookieView)
    requires
        forall|o: int|
            0 <= o < cookies.len() && cookies[o].cookie == c ==> forall|k: int|
                0 <= k < cookies[o].delivered.len() ==> #[trigger] cookies[o].delivered[k] == id,
    ensures
        forall|a: int| 0 <= a < forgotten(cookies, id).len() ==> (#[trigger] forgotten(cookies, id)[a]).cookie != c,
{
    lemma_expiry_prunes(cookies, id);
    assert forall|a: int| 0 <= a < forgotten(cookies, id).len() implies (#[trigger] forgotten(cookies, id)[a]).cookie != c by {
        let x = forgotten(cookies, id)[a];
        let o = choose|o: int| 0 <= o < cookies.len() && x == without_id(#[trigger] cookies[o], id);
        if x.cookie == c {
            let y = x.delivered[0];
            cookies[o].delivered.lemma_filter_contains_rev(other_id(id), y);
            assert(x.delivered.contains(y));
            assert(cookies[o].delivered.filter(other_id(id)).contains(y));
            cookies[o].delivered.lemma_filter_pred(other_id(id), 0);
        }
    }
}

impl Registrations {
    /// The identifiers of the pending timers.
    fn timer_ids(&self) -> (r: Vec<u64>)
        requires
            self.wf(),
        ensures
            forall|id: u64| r@.contains(id) <==> has_timer(self@.timers, id),
    {
        let mut out: Vec<u64> = Vec::new();
        let mut i: usize = 0;
        while i < self.timers.len()
            invariant
                i <= self.timers@.len(),
                out@.len() == i,
                forall|j: int| 0 <= j < i ==> #[trigger] out@[j] == self@.timers[j].1,
            decreases self.timers.len() - i,
        {
            out.push(self.timers[i].1);
            i = i + 1;
        }
        proof {
            assert forall|id: u64| out@.contains(id) <==> has_timer(self@.timers, id) by {
                if out@.contains(id) {
                    let j = choose|j: int| 0 <= j < out@.len() && out@[j] == id;
                    assert(self@.timers[j].1 == id);
                }
                if has_timer(self@.timers, id) {
                    let t = choose|t: int| 0 <= t < self@.timers.len() && #[trigger] self@.timers[t].1 == id;
                    assert(out@[t] == id);
                }
            }
        }
        out
    }

    /// The identifiers of the remembered cookies.
    fn cookie_ids(&self) -> (r: Vec<u64>)
        ensures
            forall|id: u64| r@.contains(id) <==> exists|k: int| 0 <= k < self@.cookies.len() && #[trigger] self@.cookies[k].cookie.id == id,
    {
        let mut out: Vec<u64> = Vec::new();
        let mut i: usize = 0;
        while i < self.cookies.len()
            invariant
                i <= self.cookies@.len(),
                out@.len() == i,
                forall|j: int| 0 <= j < i ==> #[trigger] out@[j] == self@.cookies[j].cookie.id,
            decreases self.cookies.len() - i,
        {
            assert(self@.cookies[i as int] == self.cookies@[i as int]@);
            out.push(self.cookies[i].cookie.id());
            i = i + 1;
        }
        proof {
            assert forall|id: u64| out@.contains(id) <==> exists|k: int| 0 <= k < self@.cookies.len() && #[trigger] self@.cookies[k].cookie.id == id by {
                if out@.contains(id) {
                    let j = choose|j: int| 0 <= j < out@.len() && out@[j] == id;
                    assert(self@.cookies[j].cookie.id == id);
                }
                if exists|k: int| 0 <= k < self@.cookies.len() && #[trigger] self@.cookies[k].cookie.id == id {
                    let k = choose|k: int| 0 <= k < self@.cookies.len() && #[trigger] self@.cookies[k].cookie.id == id;
                    assert(out@[k] == id);
                }
            }
        }
        out
    }

    /// A registration identifier that no pending timer, and so no stored registration, uses:
    /// a random one where it is free.
    pub fn fresh_registration_id(&self) -> (r: u64)
        requires
            self.wf(),
        ensures
            !has_timer(self@.timers, r),
            forall|i: int| 0 <= i < self@.entries.len() ==> #[trigger] self@.entries[i].id != r,
    {
        let ids = self.timer_ids();
        let r = free_id(&ids, random_u64());
        proof {
            assert forall|i: int| 0 <= i < self@.entries.len() implies #[trigger] self@.entries[i].id != r by {
                assert(self@.timers.contains((self@.entries[i].expires_at, self@.entries[i].id)));
                let t = choose|t: int| 0 <= t < self@.timers.len() && self@.timers[t] == (self@.entries[i].expires_at, self@.entries[i].id);
                assert(self@.timers[t].1 == self@.entries[i].id);
            }
        }
        r
    }

    /// A cookie identifier that no remembered cookie uses: a random one where it is free.
    pub fn fresh_cookie_id(&self) -> (r: u64)
        ensures
            forall|k: int| 0 <= k < self@.cookies.len() ==> #[trigger] self@.cookies[k].cookie.id != r,
    {
        let ids = self.cookie_ids();
        let r = free_id(&ids, random_u64());
        proof {
            assert forall|k: int| 0 <= k < self@.cookies.len() implies #[trigger] self@.cookies[k].cookie.id != r by {
                if self@.cookies[k].cookie.id == r {
                    assert(ids@.contains(r));
                }
            }
        }
        r
    }
}

/// Every cookie entry for `c` names `y`.
pub open spec fn all_name(cookies: Seq<CookieEntryView>, c: CookieView, y: u64) -> bool {
    &&& exists|o: int| 0 <= o < cookies.len() && (#[trigger] cookies[o]).cookie == c
    &&& forall|o: int| 0 <= o < cookies.len() && (#[trigger] cookies[o]).cookie == c ==> cookies[o].delivered.contains(y)
}

/// An expiry of another identifier keeps `y` under cookie `c`.
proof fn lemma_forgotten_keeps(cookies: Seq<CookieEntryView>, id: u64, c: CookieView, y: u64)
    requires
        y != id,
        all_name(cookies, c, y),
    ensures
        all_name(forgotten(cookies, id), c, y),
    decreases cookies.len(),
{
    let d = cookies.drop_last();
    let last = cookies.last();
    let w = without_id(last, id);
    let f = forgotten(cookies, id);
    let rest = forgotten(d, id);
    lemma_expiry_prunes(cookies, id);
    assert forall|a: int| 0 <= a < f.len() && (#[trigger] f[a]).cookie == c implies f[a].delivered.contains(y) by {
        let o = choose|o: int| 0 <= o < cookies.len() && f[a] == without_id(#[trigger] cookies[o], id);
        assert(cookies[o].cookie == c);
        assert(cookies[o].delivered.contains(y));
        let k = choose|k: int| 0 <= k < cookies[o].delivered.len() && cookies[o].delivered[k] == y;
        cookies[o].delivered.lemma_filter_contains(other_id(id), k);
    }
    if last.cookie == c {
        assert(cookies[cookies.len() - 1] == last);
        assert(last.delivered.contains(y));
        let k = choose|k: int| 0 <= k < last.delivered.len() && last.delivered[k] == y;
        last.delivered.lemma_filter_contains(other_id(id), k);
        assert(w.delivered.len() > 0);
        assert(f == rest.push(w));
        assert(f[rest.len() as int] == w);
    } else {
        let o = choose|o: int| 0 <= o < cookies.len() && (#[trigger] cookies[o]).cookie == c;
        assert(o < d.len());
        assert(d[o] == cookies[o]);
        assert forall|q: int| 0 <= q < d.len() && (#[trigger] d[q]).cookie == c implies d[q].delivered.contains(y) by {
            assert(d[q] == cookies[q]);
        }
        lemma_forgotten_keeps(d, id, c, y);
        let a = choose|a: int| 0 <= a < rest.len() && (#[trigger] rest[a]).cookie == c;
        if w.delivered.len() > 0 {
            assert(f == rest.push(w));
            assert(f[a] == rest[a]);
        } else {
            assert(f == rest);
        }
    }
}

/// Timers of other identifiers keep `y` under cookie `c`.
proof fn lemma_forgotten_all_keeps(cookies: Seq<CookieEntryView>, fired: Seq<(u64, u64)>, c: CookieView, y: u64)
    requires
        forall|j: int| 0 <= j < fired.len() ==> (#[trigger] fired[j]).1 != y,
        all_name(cookies, c, y),
    ensures
        all_name(forgotten_all(cookies, fired), c, y),
    decreases fired.len(),
{
    if fired.len() > 0 {
        let d = fired.drop_last();
        assert forall|j: int| 0 <= j < d.len() implies (#[trigger] d[j]).1 != y by {
            assert(d[j] == fired[j]);
        }
        lemma_forgotten_all_keeps(cookies, d, c, y);
        assert(fired[fired.len() - 1] == fired.last());
        lemma_forgotten_keeps(forgotten_all(cookies, d), fired.last().1, c, y);
    }
}

/// Along a chain of discoveries, no registration is delivered twice even where timers went
/// off between two discoveries: what the first delivered is either still named by the cookie
/// it handed out, or expired and gone from the store.
pub proof fn lemma_cookie_chain_across_expiry(
    m: StoreView,
    namespace: Option<Seq<char>>,
    cookie: Option<CookieView>,
    first_limit: Option<u64>,
    next_cookie: CookieView,
    m2: StoreView,
    fired: Seq<(u64, u64)>,
    now: u64,
    second_limit: Option<u64>,
)
    requires
        store_wf(m),
        fired_between(after_discover(m, namespace, cookie, first_limit, next_cookie), m2, fired, now),
        forall|j: int, i: int|
            0 <= j < fired.len() && 0 <= i < m2.entries.len() ==> #[trigger] fired[j].1 != #[trigger] m2.entries[i].id,
    ensures
        ({
            let first = discovered(m, namespace, cookie, first_limit);
            let second = discovered(m2, namespace, Some(next_cookie), second_limit);
            forall|a: int, b: int|
                0 <= a < first.len() && 0 <= b < second.len() ==> #[trigger] first[a].id != #[trigger] second[b].id
        }),
{
    let first = discovered(m, namespace, cookie, first_limit);
    let second = discovered(m2, namespace, Some(next_cookie), second_limit);
    let m1 = after_discover(m, namespace, cookie, first_limit, next_cookie);
    let dd = delivered_under(m.cookies, cookie) + ids_of(first);
    assert forall|a: int, b: int|
        0 <= a < first.len() && 0 <= b < second.len() implies #[trigger] first[a].id != #[trigger] second[b].id by {
        let y = first[a].id;
        if y == second[b].id {
            lemma_discovered_member(m2, namespace, Some(next_cookie), second_limit, b);
            let i = choose|i: int| 0 <= i < m2.entries.len() && m2.entries[i] == second[b];
            assert forall|j: int| 0 <= j < fired.len() implies (#[trigger] fired[j]).1 != y by {
                assert(fired[j].1 != m2.entries[i].id);
            }
            let keep = other_cookie(next_cookie);
            let f = m.cookies.filter(keep);
            assert(dd[delivered_under(m.cookies, cookie).len() + a] == y);
            assert(m1.cookies == f.push(CookieEntryView { cookie: next_cookie, delivered: dd }));
            let last = f.len() as int;
            assert(m1.cookies[last].cookie == next_cookie);
            assert forall|o: int| 0 <= o < m1.cookies.len() && (#[trigger] m1.cookies[o]).cookie == next_cookie
                implies m1.cookies[o].delivered.contains(y) by {
                if o < last {
                    lemma_filter_member(m.cookies, keep, o);
                    assert(m1.cookies[o] == f[o]);
                }
            }
            lemma_forgotten_all_keeps(m1.cookies, fired, next_cookie, y);
            let cs = m2.cookies;
            let o = choose|o: int| 0 <= o < cs.len() && (#[trigger] cs[o]).cookie == next_cookie;
            let k = choose|k: int| 0 <= k < cs.len() && #[trigger] cs[k].cookie == next_cookie;
            assert(cs[k].delivered.contains(y));
            assert(delivered_under(cs, Some(next_cookie)) == cs[k].delivered);
            assert(!delivered_under(cs, Some(next_cookie)).contains(second[b].id));
        }
    }
}

} // verus!
