//! The libp2p block list, which holds the blocked peers and denies them
//! connections, seen through what it holds: the byte encodings of the peer ids
//! in its set.

use crate::peer::{is_peer_id_encoding, PeerKey};
use libp2p::allow_block_list::{Behaviour, BlockedPeers};
use libp2p::swarm::derive_prelude::{Endpoint, PortUse};
use libp2p::swarm::{ConnectionDenied, ConnectionId, FromSwarm, NetworkBehaviour, ToSwarm};
use libp2p::Multiaddr;
use std::convert::Infallible;
use std::task::{Context, Poll};
use vstd::prelude::*;

verus! {

#[verifier::external_type_specification]
#[verifier::external_body]
#[verifier::reject_recursive_types(S)]
pub struct ExBehaviour<S>(Behaviour<S>);

#[verifier::external_type_specification]
#[verifier::external_body]
pub struct ExBlockedPeers(BlockedPeers);

#[verifier::external_type_specification]
#[verifier::external_body]
pub struct ExConnectionDenied(ConnectionDenied);

#[verifier::external_type_specification]
#[verifier::external_body]
pub struct ExConnectionId(ConnectionId);

#[verifier::external_type_specification]
#[verifier::external_body]
pub struct ExMultiaddr(Multiaddr);

#[verifier::external_type_specification]
#[verifier::external_body]
pub struct ExEndpoint(Endpoint);

#[verifier::external_type_specification]
#[verifier::external_body]
pub struct ExPortUse(PortUse);

#[verifier::external_type_specification]
#[verifier::external_body]
pub struct ExFromSwarm<'a>(FromSwarm<'a>);

#[verifier::external_type_specification]
#[verifier::external_body]
pub struct ExContext<'a>(Context<'a>);

#[verifier::external_type_specification]
#[verifier::reject_recursive_types(T)]
pub struct ExPoll<T>(Poll<T>);

#[verifier::external_type_specification]
#[verifier::external_body]
#[verifier::reject_recursive_types(TOutEvent)]
#[verifier::reject_recursive_types(TInEvent)]
pub struct ExToSwarm<TOutEvent, TInEvent>(ToSwarm<TOutEvent, TInEvent>);

/// What a block list holds: the byte encodings (`PeerId::to_bytes`) of the
/// peer ids in its set of blocked peers.
pub uninterp spec fn blocked_peer_set(list: Behaviour<BlockedPeers>) -> Set<Seq<u8>>;

/// The block list's queue of peers whose connections are still to be closed,
/// front first, each as the encoding of its peer id: a peer is queued when it
/// is newly blocked, and `poll` hands the front of the queue to the swarm.
pub uninterp spec fn close_requests(list: Behaviour<BlockedPeers>) -> Seq<Seq<u8>>;

/// Makes an empty block list with `Behaviour::<BlockedPeers>::default()`.
#[verifier::external_body]
pub(crate) fn block_list_new() -> (list: Behaviour<BlockedPeers>)
    ensures
        blocked_peer_set(list) == Set::<Seq<u8>>::empty(),
        close_requests(list) == Seq::<Seq<u8>>::empty(),
{
    Behaviour::<BlockedPeers>::default()
}

/// Calls `Behaviour::<BlockedPeers>::block_peer`, which inserts the peer in
/// its set (and, when it was not there, queues the closing of the peer's
/// connections) and returns whether the peer was newly inserted.
///
/// The peer id is rebuilt from the key's bytes with `PeerId::from_bytes`, and
/// encodes to those bytes again (that is what `is_peer_id_encoding` says).
/// Peer ids compare equal exactly when their multihash codes and digests do,
/// that is when their encodings do, so set membership of a peer id is
/// membership of its encoding in `blocked_peer_set`.
#[verifier::external_body]
pub(crate) fn block_list_block(list: &mut Behaviour<BlockedPeers>, peer: &PeerKey) -> (inserted: bool)
    requires
        is_peer_id_encoding(peer@),
    ensures
        inserted == !blocked_peer_set(*old(list)).contains(peer@),
        blocked_peer_set(*final(list)) == blocked_peer_set(*old(list)).insert(peer@),
        close_requests(*final(list)) == if inserted {
            close_requests(*old(list)).push(peer@)
        } else {
            close_requests(*old(list))
        },
{
    let peer_id = libp2p::PeerId::from_bytes(peer.as_bytes()).expect("a peer key encodes a peer id");
    list.block_peer(peer_id)
}

/// Calls `Behaviour::<BlockedPeers>::unblock_peer`, which removes the peer
/// from its set and returns whether it was there.
#[verifier::external_body]
pub(crate) fn block_list_unblock(list: &mut Behaviour<BlockedPeers>, peer: &PeerKey) -> (removed: bool)
    requires
        is_peer_id_encoding(peer@),
    ensures
        removed == blocked_peer_set(*old(list)).contains(peer@),
        blocked_peer_set(*final(list)) == blocked_peer_set(*old(list)).remove(peer@),
        close_requests(*final(list)) == close_requests(*old(list)),
{
    let peer_id = libp2p::PeerId::from_bytes(peer.as_bytes()).expect("a peer key encodes a peer id");
    list.unblock_peer(peer_id)
}

/// Calls `Behaviour::<BlockedPeers>::blocked_peers` and hands out the bytes of
/// each peer id in the set. The set holds distinct peer ids, and distinct peer
/// ids have distinct encodings, so no bytes come out twice.
#[verifier::external_body]
pub(crate) fn block_list_peers(list: &Behaviour<BlockedPeers>) -> (peers: Vec<Vec<u8>>)
    ensures
        peers@.map_values(|v: Vec<u8>| v@).to_set() == blocked_peer_set(*list),
        peers@.map_values(|v: Vec<u8>| v@).no_duplicates(),
{
    list.blocked_peers().iter().map(|p| p.to_bytes()).collect()
}

/// Calls `handle_pending_inbound_connection` of the block list, which keeps
/// the trait's default: it accepts every pending inbound connection.
#[verifier::external_body]
pub(crate) fn block_list_pending_inbound(
    list: &mut Behaviour<BlockedPeers>,
    connection_id: ConnectionId,
    local_addr: &Multiaddr,
    remote_addr: &Multiaddr,
) -> (r: Result<(), ConnectionDenied>)
    ensures
        r.is_ok(),
        blocked_peer_set(*final(list)) == blocked_peer_set(*old(list)),
        close_requests(*final(list)) == close_requests(*old(list)),
{
    list.handle_pending_inbound_connection(connection_id, local_addr, remote_addr)
}

/// Calls `handle_established_inbound_connection` of the block list, which
/// denies the connection exactly when the peer is in its set; the connection
/// handler that it makes on success is dropped.
#[verifier::external_body]
pub(crate) fn block_list_established_inbound(
    list: &mut Behaviour<BlockedPeers>,
    connection_id: ConnectionId,
    peer: &PeerKey,
    local_addr: &Multiaddr,
    remote_addr: &Multiaddr,
) -> (r: Result<(), ConnectionDenied>)
    requires
        is_peer_id_encoding(peer@),
    ensures
        r.is_ok() == !blocked_peer_set(*old(list)).contains(peer@),
        blocked_peer_set(*final(list)) == blocked_peer_set(*old(list)),
        close_requests(*final(list)) == close_requests(*old(list)),
{
    let peer_id = libp2p::PeerId::from_bytes(peer.as_bytes()).expect("a peer key encodes a peer id");
    list.handle_established_inbound_connection(connection_id, peer_id, local_addr, remote_addr).map(|_| ())
}

/// Calls `handle_pending_outbound_connection` of the block list, which denies
/// the dial exactly when a peer is given and is in its set, and otherwise
/// adds no address.
#[verifier::external_body]
pub(crate) fn block_list_pending_outbound(
    list: &mut Behaviour<BlockedPeers>,
    connection_id: ConnectionId,
    maybe_peer: Option<&PeerKey>,
    addresses: &[Multiaddr],
    effective_role: Endpoint,
) -> (r: Result<Vec<Multiaddr>, ConnectionDenied>)
    requires
        maybe_peer matches Some(p) ==> is_peer_id_encoding(p@),
    ensures
        r.is_ok() == match maybe_peer {
            Some(p) => !blocked_peer_set(*old(list)).contains(p@),
            None => true,
        },
        r matches Ok(v) ==> v@.len() == 0,
        blocked_peer_set(*final(list)) == blocked_peer_set(*old(list)),
        close_requests(*final(list)) == close_requests(*old(list)),
{
    let maybe_peer_id = maybe_peer.map(|p| libp2p::PeerId::from_bytes(p.as_bytes()).expect("a peer key encodes a peer id"));
    list.handle_pending_outbound_connection(connection_id, maybe_peer_id, addresses, effective_role)
}

/// Calls `handle_established_outbound_connection` of the block list, which
/// denies the connection exactly when the peer is in its set; the connection
/// handler that it makes on success is dropped.
#[verifier::external_body]
pub(crate) fn block_list_established_outbound(
    list: &mut Behaviour<BlockedPeers>,
    connection_id: ConnectionId,
    peer: &PeerKey,
    addr: &Multiaddr,
    role_override: Endpoint,
    port_use: PortUse,
) -> (r: Result<(), ConnectionDenied>)
    requires
        is_peer_id_encoding(peer@),
    ensures
        r.is_ok() == !blocked_peer_set(*old(list)).contains(peer@),
        blocked_peer_set(*final(list)) == blocked_peer_set(*old(list)),
        close_requests(*final(list)) == close_requests(*old(list)),
{
    let peer_id = libp2p::PeerId::from_bytes(peer.as_bytes()).expect("a peer key encodes a peer id");
    list.handle_established_outbound_connection(connection_id, peer_id, addr, role_override, port_use).map(|_| ())
}

/// Calls `on_swarm_event` of the block list, which ignores every event.
#[verifier::external_body]
pub(crate) fn block_list_on_swarm_event(list: &mut Behaviour<BlockedPeers>, event: FromSwarm)
    ensures
        blocked_peer_set(*final(list)) == blocked_peer_set(*old(list)),
        close_requests(*final(list)) == close_requests(*old(list)),
{
    list.on_swarm_event(event)
}

/// The peer that a swarm request asks to disconnect from entirely: for
/// `ToSwarm::CloseConnection { peer_id, connection: CloseConnection::All }`
/// the encoding (`PeerId::to_bytes`) of `peer_id`, and `None` for any other
/// request.
pub uninterp spec fn close_request_peer(request: ToSwarm<Infallible, Infallible>) -> Option<Seq<u8>>;

/// Calls `poll` of the block list. Where a close request is queued, it takes
/// the front one off the queue and returns it ready, as
/// `ToSwarm::CloseConnection { peer_id, connection: CloseConnection::All }`
/// for that peer; otherwise it stores the task's waker and returns `Pending`.
/// The set of blocked peers is left as it was.
#[verifier::external_body]
pub(crate) fn block_list_poll(
    list: &mut Behaviour<BlockedPeers>,
    cx: &mut Context<'_>,
) -> (r: Poll<ToSwarm<Infallible, Infallible>>)
    ensures
        blocked_peer_set(*final(list)) == blocked_peer_set(*old(list)),
        close_requests(*old(list)).len() > 0 ==> r is Ready && close_requests(*final(list)) == close_requests(*old(list)).drop_first(),
        r matches Poll::Ready(request) ==> close_request_peer(request) == Some(close_requests(*old(list))[0]),
        close_requests(*old(list)).len() == 0 ==> r is Pending && close_requests(*final(list)) == close_requests(*old(list)),
{
    list.poll(cx)
}

} // verus!
