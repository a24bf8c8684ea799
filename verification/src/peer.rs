//! The identity of a peer, held as the byte encoding of its libp2p peer id.

use vstd::prelude::*;

verus! {

/// What `libp2p::PeerId::from_bytes` makes of the bytes, as the encoding that
/// `PeerId::to_bytes` gives of the parsed peer id; `None` where parsing fails.
pub uninterp spec fn peer_id_from_bytes(bytes: Seq<u8>) -> Option<Seq<u8>>;

/// Whether `bytes` is the encoding of a peer id: `PeerId::from_bytes` parses
/// it and `PeerId::to_bytes` gives it back unchanged.
pub open spec fn is_peer_id_encoding(bytes: Seq<u8>) -> bool {
    peer_id_from_bytes(bytes) == Some(bytes)
}

/// Calls `libp2p::PeerId::from_bytes` and hands out the parsed peer id as its
/// encoding (`PeerId::to_bytes`). The result depends on the bytes alone, which
/// `peer_id_from_bytes` names.
#[verifier::external_body]
fn parse_peer_id(bytes: &[u8]) -> (r: Option<Vec<u8>>)
    ensures
        match r {
            Some(v) => peer_id_from_bytes(bytes@) == Some(v@),
            None => peer_id_from_bytes(bytes@) is None,
        },
{
    libp2p::PeerId::from_bytes(bytes).ok().map(|peer_id| peer_id.to_bytes())
}

/// Whether two byte strings are equal.
fn bytes_equal(a: &[u8], b: &[u8]) -> (r: bool)
    ensures
        r == (a@ == b@),
{
    let n = a.len();
    if n != b.len() {
        return false;
    }
    let mut i: usize = 0;
    while i < n
        invariant
            n == a@.len(),
            n == b@.len(),
            i <= n,
            forall|j: int| 0 <= j < i ==> a@[j] == b@[j],
        decreases n - i,
    {
        if a[i] != b[i] {
            return false;
        }
        i = i + 1;
    }
    assert(a@ =~= b@);
    true
}

/// A peer, identified by the bytes of its libp2p peer id.
///
/// Every value holds the encoding of a peer id, from which the peer id can be
/// rebuilt and which that peer id encodes to again.
#[derive(Debug, PartialEq, Eq, Hash)]
pub struct PeerKey {
    bytes: Vec<u8>,
}

impl View for PeerKey {
    type V = Seq<u8>;

    closed spec fn view(&self) -> Seq<u8> {
        self.bytes@
    }
}

impl Clone for PeerKey {
    fn clone(&self) -> (r: Self)
        ensures
            r@ == self@,
    {
        proof {
            use_type_invariant(self);
        }
        let bytes = self.bytes.clone();
        assert(bytes@ =~= self.bytes@);
        PeerKey { bytes }
    }
}

impl PeerKey {
    /// Every key holds the encoding of a peer id.
    #[verifier::type_invariant]
    pub open spec fn encodes_peer_id(self) -> bool {
        is_peer_id_encoding(self@)
    }

    /// Makes a key from the bytes of a peer id; `None` where they are not the
    /// encoding of a peer id.
    pub fn from_bytes(bytes: Vec<u8>) -> (r: Option<PeerKey>)
        ensures
            r.is_some() == is_peer_id_encoding(bytes@),
            r matches Some(k) ==> k@ == bytes@,
    {
        match parse_peer_id(bytes.as_slice()) {
            Some(encoding) => {
                if bytes_equal(encoding.as_slice(), bytes.as_slice()) {
                    Some(PeerKey { bytes })
                } else {
                    None
                }
            },
            None => None,
        }
    }

    /// The bytes of the peer id.
    pub fn as_bytes(&self) -> (r: &[u8])
        ensures
            r@ == self@,
    {
        self.bytes.as_slice()
    }

    /// Whether two keys name the same peer.
    pub fn same_peer(&self, other: &PeerKey) -> (r: bool)
        ensures
            r == (self@ == other@),
    {
        bytes_equal(self.bytes.as_slice(), other.bytes.as_slice())
    }
}

} // verus!
