//! Keys in the 256-bit XOR metric space, and the order of their distances.

use vstd::prelude::*;

use crate::peer::PeerId;

verus! {

/// A peer placed in the metric space: its identifier and its 256-bit point.
#[derive(Debug, Clone, PartialEq, Eq)]
pub struct Key {
    peer: PeerId,
    point: [u8; 32],
}

/// What a key is made of.
pub struct KeyView {
    pub peer: Seq<u8>,
    pub point: Seq<u8>,
}

impl View for Key {
    type V = KeyView;

    closed spec fn view(&self) -> KeyView {
        KeyView { peer: self.peer@, point: self.point@ }
    }
}

impl Key {
    /// The key of `peer` at `point`.
    pub fn new(peer: PeerId, point: [u8; 32]) -> (r: Key)
        ensures
            r@ == (KeyView { peer: peer@, point: point@ }),
    {
        Key { peer, point }
    }

    /// The peer the key stands for.
    pub fn preimage(&self) -> (r: &PeerId)
        ensures
            r@ == self@.peer,
    {
        &self.peer
    }

    /// The point of the key.
    pub fn point(&self) -> (r: [u8; 32])
        ensures
            r@ == self@.point,
    {
        self.point
    }

    pub proof fn lemma_point_len(&self)
        ensures
            self@.point.len() == 32,
    {
    }

    pub fn duplicate(&self) -> (r: Key)
        ensures
            r@ == self@,
    {
        Key { peer: self.peer.duplicate(), point: self.point }
    }
}

/// The distance between two points: their bitwise exclusive or, read as a big-endian number.
pub open spec fn distance(a: Seq<u8>, b: Seq<u8>) -> Seq<u8> {
    Seq::new(32, |i: int| a[i] ^ b[i])
}

/// `a` is closer than `b`: at the first byte where they differ, `a` has the smaller one.
pub open spec fn closer(a: Seq<u8>, b: Seq<u8>) -> bool {
    exists|i: int|
        0 <= i < a.len() && i < b.len() && a[i] < b[i] && forall|j: int|
            0 <= j < i ==> #[trigger] a[j] == b[j]
}

pub proof fn lemma_closer_transitive(a: Seq<u8>, b: Seq<u8>, c: Seq<u8>)
    requires
        closer(a, b),
        closer(b, c),
    ensures
        closer(a, c),
{
    let i = choose|i: int|
        0 <= i < a.len() && i < b.len() && a[i] < b[i] && forall|j: int|
            0 <= j < i ==> #[trigger] a[j] == b[j];
    let k = choose|k: int|
        0 <= k < b.len() && k < c.len() && b[k] < c[k] && forall|j: int|
            0 <= j < k ==> #[trigger] b[j] == c[j];
    let m = if i < k { i } else { k };
    assert forall|j: int| 0 <= j < m implies #[trigger] a[j] == c[j] by {
        assert(a[j] == b[j]);
        assert(b[j] == c[j]);
    }
    if i < k {
        assert(b[i] == c[i]);
    } else if k < i {
        assert(a[k] == b[k]);
    }
    assert(a[m] < c[m]);
}

pub proof fn lemma_closer_asymmetric(a: Seq<u8>, b: Seq<u8>)
    requires
        closer(a, b),
    ensures
        !closer(b, a),
        a != b,
{
    let i = choose|i: int|
        0 <= i < a.len() && i < b.len() && a[i] < b[i] && forall|j: int|
            0 <= j < i ==> #[trigger] a[j] == b[j];
    if closer(b, a) {
        let k = choose|k: int|
            0 <= k < b.len() && k < a.len() && b[k] < a[k] && forall|j: int|
                0 <= j < k ==> #[trigger] b[j] == a[j];
        if i < k {
            assert(b[i] == a[i]);
        } else if k < i {
            assert(a[k] == b[k]);
        }
    }
    if a == b {
        assert(a[i] == b[i]);
    }
}

/// The distance between two points, computed.
pub fn distance_of(a: &[u8; 32], b: &[u8; 32]) -> (r: Vec<u8>)
    ensures
        r@ == distance(a@, b@),
{
    let mut out: Vec<u8> = Vec::with_capacity(32);
    let mut i: usize = 0;
    while i < 32
        invariant
            i <= 32,
            a@.len() == 32,
            b@.len() == 32,
            out@.len() == i,
            forall|j: int| 0 <= j < i ==> #[trigger] out@[j] == a@[j] ^ b@[j],
        decreases 32 - i,
    {
        out.push(a[i] ^ b[i]);
        i = i + 1;
    }
    assert(out@ =~= distance(a@, b@));
    out
}

/// Compares two distances of equal length: negative where `a` is closer, zero where they
/// are equal, positive where `b` is closer.
pub fn compare_distances(a: &Vec<u8>, b: &Vec<u8>) -> (r: i8)
    requires
        a@.len() == b@.len(),
    ensures
        r < 0 <==> closer(a@, b@),
        r == 0 <==> a@ == b@,
        r > 0 <==> closer(b@, a@),
{
    let mut i: usize = 0;
    while i < a.len()
        invariant
            i <= a@.len(),
            a@.len() == b@.len(),
            forall|j: int| 0 <= j < i ==> #[trigger] a@[j] == b@[j],
        decreases a.len() - i,
    {
        if a[i] < b[i] {
            assert(closer(a@, b@));
            proof {
                lemma_closer_asymmetric(a@, b@);
            }
            return -1;
        }
        if a[i] > b[i] {
            assert(forall|j: int| 0 <= j < i ==> #[trigger] b@[j] == a@[j]);
            assert(closer(b@, a@));
            proof {
                lemma_closer_asymmetric(b@, a@);
            }
            return 1;
        }
        i = i + 1;
    }
    assert(a@ =~= b@);
    proof {
        if closer(a@, b@) {
            lemma_closer_asymmetric(a@, b@);
        }
    }
    0
}

} // verus!
