//! The values that rendezvous requests and responses carry.

use vstd::prelude::*;

use vstd::string::StringSliceAdditionalSpecFns;

use crate::clock::random_u64;
use crate::peer::PeerId;

verus! {

/// Time to live of a registration, in seconds.
pub type Ttl = u64;

/// The time to live of a registration that asks for none: two hours.
pub const DEFAULT_TTL: u64 = 7200;

/// The shortest time to live a store accepts by default: two hours.
pub const MIN_TTL: u64 = 7200;

/// The longest time to live a store accepts by default: seventy-two hours.
pub const MAX_TTL: u64 = 259200;

/// The longest namespace, in bytes.
pub const MAX_NAMESPACE: usize = 255;

/// A short string that partitions the rendezvous directory.
#[derive(Debug, Clone, PartialEq, Eq, Hash)]
pub struct Namespace(String);

/// A namespace longer than [`MAX_NAMESPACE`] bytes was given.
#[derive(Debug, Clone, Copy, PartialEq, Eq)]
pub struct NamespaceTooLong;

impl View for Namespace {
    type V = Seq<char>;

    closed spec fn view(&self) -> Seq<char> {
        self.0@
    }
}

/// Whether `s` is short enough to be a namespace.
pub open spec fn namespace_fits(s: &str) -> bool {
    s.len() <= MAX_NAMESPACE
}

impl Namespace {
    /// A namespace from a string, which must be short enough.
    pub fn from_static(value: &'static str) -> (r: Namespace)
        requires
            namespace_fits(value),
        ensures
            r@ == value@,
    {
        Namespace(value.to_owned())
    }

    /// A namespace from a string, or an error where it is too long.
    pub fn new(value: &str) -> (r: Result<Namespace, NamespaceTooLong>)
        ensures
            r is Ok <==> namespace_fits(value),
            r matches Ok(n) ==> n@ == value@,
    {
        if value.len() > MAX_NAMESPACE {
            return Err(NamespaceTooLong);
        }
        Ok(Namespace(value.to_owned()))
    }

    /// The namespace as a string.
    pub fn as_str(&self) -> (r: &str)
        ensures
            r@ == self@,
    {
        self.0.as_str()
    }

    /// A second namespace with the same text.
    pub fn duplicate(&self) -> (r: Namespace)
        ensures
            r@ == self@,
    {
        Namespace(self.0.clone())
    }

    /// Whether both namespaces have the same text.
    pub fn same_as(&self, other: &Namespace) -> (r: bool)
        ensures
            r == (self@ == other@),
    {
        self.0 == other.0
    }
}

/// Copies a byte vector.
pub fn copy_bytes(v: &Vec<u8>) -> (r: Vec<u8>)
    ensures
        r@ == v@,
{
    let mut out: Vec<u8> = Vec::with_capacity(v.len());
    let mut i: usize = 0;
    while i < v.len()
        invariant
            i <= v.len(),
            out@ == v@.take(i as int),
        decreases v.len() - i,
    {
        out.push(v[i]);
        i = i + 1;
        assert(out@ =~= v@.take(i as int));
    }
    assert(out@ =~= v@);
    out
}

/// A signed record of the peer that registers: its identifier, and the signed envelope that
/// carries its addresses, in wire encoding.
#[derive(Debug, Clone, PartialEq, Eq)]
pub struct PeerRecord {
    peer_id: PeerId,
    envelope: Vec<u8>,
}

/// What a peer record is made of.
pub struct PeerRecordView {
    pub peer: Seq<u8>,
    pub envelope: Seq<u8>,
}

impl View for PeerRecord {
    type V = PeerRecordView;

    closed spec fn view(&self) -> PeerRecordView {
        PeerRecordView { peer: self.peer_id@, envelope: self.envelope@ }
    }
}

impl PeerRecord {
    pub fn new(peer_id: PeerId, envelope: Vec<u8>) -> (r: PeerRecord)
        ensures
            r@ == (PeerRecordView { peer: peer_id@, envelope: envelope@ }),
    {
        PeerRecord { peer_id, envelope }
    }

    /// The peer that signed the record.
    pub fn peer_id(&self) -> (r: &PeerId)
        ensures
            r@ == self@.peer,
    {
        &self.peer_id
    }

    /// The signed envelope, in wire encoding.
    pub fn envelope(&self) -> (r: &Vec<u8>)
        ensures
            r@ == self@.envelope,
    {
        &self.envelope
    }

    pub fn duplicate(&self) -> (r: PeerRecord)
        ensures
            r@ == self@,
    {
        PeerRecord { peer_id: self.peer_id.duplicate(), envelope: copy_bytes(&self.envelope) }
    }
}

/// A registration as a peer asks for it.
#[derive(Debug, Clone, PartialEq, Eq)]
pub struct NewRegistration {
    pub namespace: Namespace,
    pub record: PeerRecord,
    pub ttl: Option<Ttl>,
}

impl NewRegistration {
    pub fn new(namespace: Namespace, record: PeerRecord, ttl: Option<Ttl>) -> (r: NewRegistration)
        ensures
            r.namespace@ == namespace@,
            r.record@ == record@,
            r.ttl == ttl,
    {
        NewRegistration { namespace, record, ttl }
    }

    /// The time to live asked for, or the default one.
    pub fn effective_ttl(&self) -> (r: Ttl)
        ensures
            r == effective_ttl(self.ttl),
    {
        match self.ttl {
            Some(t) => t,
            None => DEFAULT_TTL,
        }
    }
}

/// The time to live of a registration that asked for `ttl`.
pub open spec fn effective_ttl(ttl: Option<Ttl>) -> Ttl {
    match ttl {
        Some(t) => t,
        None => DEFAULT_TTL,
    }
}

/// A registration as the store holds it.
#[derive(Debug, Clone, PartialEq, Eq)]
pub struct Registration {
    pub namespace: Namespace,
    pub record: PeerRecord,
    pub ttl: Ttl,
}

/// What a registration is made of.
pub struct RegistrationView {
    pub namespace: Seq<char>,
    pub peer: Seq<u8>,
    pub envelope: Seq<u8>,
    pub ttl: Ttl,
}

impl View for Registration {
    type V = RegistrationView;

    open spec fn view(&self) -> RegistrationView {
        RegistrationView {
            namespace: self.namespace@,
            peer: self.record@.peer,
            envelope: self.record@.envelope,
            ttl: self.ttl,
        }
    }
}

impl Registration {
    pub fn duplicate(&self) -> (r: Registration)
        ensures
            r@ == self@,
    {
        Registration {
            namespace: self.namespace.duplicate(),
            record: self.record.duplicate(),
            ttl: self.ttl,
        }
    }
}

/// A continuation token for paginated discovery: an identifier, and the namespace it is
/// bound to, if any.
#[derive(Debug, Clone, PartialEq, Eq, Hash)]
pub struct Cookie {
    id: u64,
    namespace: Option<Namespace>,
}

/// What a cookie is made of.
pub struct CookieView {
    pub id: u64,
    pub namespace: Option<Seq<char>>,
}

/// The view of an optional namespace.
pub open spec fn ns_view(ns: Option<Namespace>) -> Option<Seq<char>> {
    match ns {
        Some(n) => Some(n@),
        None => None,
    }
}

impl View for Cookie {
    type V = CookieView;

    closed spec fn view(&self) -> CookieView {
        CookieView { id: self.id, namespace: ns_view(self.namespace) }
    }
}

/// Copies an optional namespace.
pub fn duplicate_namespace(ns: &Option<Namespace>) -> (r: Option<Namespace>)
    ensures
        ns_view(r) == ns_view(*ns),
{
    match ns {
        Some(n) => Some(n.duplicate()),
        None => None,
    }
}

/// Whether two optional namespaces are equal.
pub fn same_namespace(a: &Option<Namespace>, b: &Option<Namespace>) -> (r: bool)
    ensures
        r == (ns_view(*a) == ns_view(*b)),
{
    match (a, b) {
        (Some(x), Some(y)) => x.same_as(y),
        (None, None) => true,
        _ => false,
    }
}

impl Cookie {
    /// A cookie with the given identifier and namespace.
    pub fn with_id(id: u64, namespace: Option<Namespace>) -> (r: Cookie)
        ensures
            r@ == (CookieView { id, namespace: ns_view(namespace) }),
    {
        Cookie { id, namespace }
    }

    /// A fresh cookie bound to `namespace`.
    pub fn for_namespace(namespace: Namespace) -> (r: Cookie)
        ensures
            r@.namespace == Some(namespace@),
    {
        Cookie { id: random_u64(), namespace: Some(namespace) }
    }

    /// A fresh cookie bound to no namespace.
    pub fn for_all_namespaces() -> (r: Cookie)
        ensures
            r@.namespace is None,
    {
        Cookie { id: random_u64(), namespace: None }
    }

    /// The identifier of the cookie.
    pub fn id(&self) -> (r: u64)
        ensures
            r == self@.id,
    {
        self.id
    }

    /// The namespace the cookie is bound to, if any.
    pub fn namespace(&self) -> (r: Option<&Namespace>)
        ensures
            match r {
                Some(n) => self@.namespace == Some(n@),
                None => self@.namespace is None,
            },
    {
        match &self.namespace {
            Some(n) => Some(n),
            None => None,
        }
    }

    pub fn duplicate(&self) -> (r: Cookie)
        ensures
            r@ == self@,
    {
        Cookie { id: self.id, namespace: duplicate_namespace(&self.namespace) }
    }

    /// Whether both cookies are equal.
    pub fn same_as(&self, other: &Cookie) -> (r: bool)
        ensures
            r == (self@ == other@),
    {
        self.id == other.id && same_namespace(&self.namespace, &other.namespace)
    }
}

/// Why a request was refused, as it goes on the wire.
#[derive(Debug, Clone, Copy, PartialEq, Eq, Hash)]
pub enum ErrorCode {
    InvalidNamespace,
    InvalidSignedPeerRecord,
    InvalidTtl,
    InvalidCookie,
    NotAuthorized,
    InternalError,
    Unavailable,
}

/// A rendezvous message.
#[derive(Debug, PartialEq, Eq)]
pub enum Message {
    Register(NewRegistration),
    RegisterResponse(Result<Ttl, ErrorCode>),
    Unregister(Namespace),
    Discover { namespace: Option<Namespace>, cookie: Option<Cookie>, limit: Option<u64> },
    DiscoverResponse(Result<(Vec<Registration>, Cookie), ErrorCode>),
}

} // verus!
