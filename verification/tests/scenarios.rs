use std::task::{Context, Poll};
use std::time::Duration;

use libp2p::swarm::derive_prelude::{Endpoint, PortUse};
use libp2p::identity::Keypair;
use libp2p::swarm::{CloseConnection, ConnectionId, ToSwarm};
use libp2p::Multiaddr;
use peer_blocking::blocking::{
    BlockReason, BlockedPeerInfo, BlockingManager, MAX_DURATION_NANOS, RETAIN_SCORE_EPOCH_MULTIPLIER,
};
use peer_blocking::peer::PeerKey;

const EPOCH_NANOS: u128 = 384_000_000_000;
const RETAIN_NANOS: u128 = EPOCH_NANOS * RETAIN_SCORE_EPOCH_MULTIPLIER as u128;

fn peer() -> PeerKey {
    let keypair = Keypair::generate_ed25519();
    PeerKey::from_bytes(keypair.public().to_peer_id().to_bytes()).unwrap()
}

fn contains(manager: &BlockingManager, peer: &PeerKey) -> bool {
    manager.blocked_peers().contains(&peer.as_bytes().to_vec())
}

#[test]
fn retain_period_is_one_hundred_epochs() {
    assert_eq!(RETAIN_NANOS, 38_400_000_000_000);
    assert_eq!(MAX_DURATION_NANOS, Duration::MAX.as_nanos());
}

#[test]
fn peer_key_rejects_bytes_that_are_no_peer_id() {
    assert!(PeerKey::from_bytes(vec![]).is_none());
    assert!(PeerKey::from_bytes(vec![1, 2, 3]).is_none());
    let id = Keypair::generate_ed25519().public().to_peer_id();
    let key = PeerKey::from_bytes(id.to_bytes()).unwrap();
    assert_eq!(key.as_bytes(), id.to_bytes().as_slice());
    // a trailing byte makes the encoding invalid
    let mut longer = id.to_bytes();
    longer.push(0);
    assert!(PeerKey::from_bytes(longer).is_none());
}

#[test]
fn peer_key_rejects_encodings_that_do_not_round_trip() {
    // a ten-byte varint whose last byte only sets bits beyond 64 decodes to code 0
    let mut bytes = vec![0x80; 9];
    bytes.push(0x02);
    bytes.push(32);
    bytes.extend_from_slice(&[7u8; 32]);
    let parsed = libp2p::PeerId::from_bytes(&bytes).unwrap();
    assert_ne!(parsed.to_bytes(), bytes);
    assert!(PeerKey::from_bytes(bytes).is_none());
    // its canonical encoding is accepted
    assert!(PeerKey::from_bytes(parsed.to_bytes()).is_some());
}

#[test]
fn same_peer_compares_bytes() {
    let a = peer();
    let b = peer();
    assert!(a.same_peer(&a.clone()));
    assert!(!a.same_peer(&b));
}

#[test]
fn block_records_time_and_reason() {
    let mut m = BlockingManager::with_epoch_nanos(EPOCH_NANOS);
    let p = peer();
    assert!(m.block_peer_at(p.clone(), BlockReason::FailedHandshake, 7));
    assert_eq!(
        m.blocked_peer_info(&p),
        Some(BlockedPeerInfo { blocked_at: 7, reason: BlockReason::FailedHandshake })
    );
    // a second block keeps the first record
    assert!(!m.block_peer_at(p.clone(), BlockReason::Other, 9));
    assert_eq!(
        m.blocked_peer_info(&p),
        Some(BlockedPeerInfo { blocked_at: 7, reason: BlockReason::FailedHandshake })
    );
    assert_eq!(m.blocked_peers_count(), 1);
}

#[test]
fn expiry_boundary_is_exactly_the_retention_period() {
    let mut m = BlockingManager::with_epoch_nanos(EPOCH_NANOS);
    let p = peer();
    m.block_peer_at(p.clone(), BlockReason::LowScore, 1_000);
    m.unblock_expired_peers_at(1_000 + RETAIN_NANOS - 1);
    assert!(contains(&m, &p));
    m.unblock_expired_peers_at(1_000 + RETAIN_NANOS);
    assert!(!contains(&m, &p));
    assert_eq!(m.blocked_peer_info(&p), None);
    assert_eq!(m.blocked_peers_count(), 0);
}

#[test]
fn a_time_before_the_block_counts_as_no_time_elapsed() {
    let mut m = BlockingManager::with_epoch_nanos(0);
    let p = peer();
    m.block_peer_at(p.clone(), BlockReason::LowScore, 500);
    // with a zero epoch every block has lasted long enough, even read at an earlier time
    m.unblock_expired_peers_at(10);
    assert!(!contains(&m, &p));

    let mut m = BlockingManager::with_epoch_nanos(1);
    let q = peer();
    m.block_peer_at(q.clone(), BlockReason::LowScore, 500);
    m.unblock_expired_peers_at(10);
    assert!(contains(&m, &q));
}

#[test]
fn expiry_lifts_only_expired_peers_and_is_idempotent() {
    let mut m = BlockingManager::with_epoch_nanos(EPOCH_NANOS);
    let early = peer();
    let late = peer();
    m.block_peer_at(early.clone(), BlockReason::LowScore, 0);
    m.block_peer_at(late.clone(), BlockReason::Other, 100);
    let now = RETAIN_NANOS + 50;
    m.unblock_expired_peers_at(now);
    assert!(!contains(&m, &early));
    assert!(contains(&m, &late));
    assert_eq!(m.blocked_peer_info(&late), Some(BlockedPeerInfo { blocked_at: 100, reason: BlockReason::Other }));
    m.unblock_expired_peers_at(now);
    assert_eq!(m.blocked_peers_count(), 1);
    m.unblock_expired_peers_at(RETAIN_NANOS + 100);
    assert_eq!(m.blocked_peers_count(), 0);
}

#[test]
fn unblock_undoes_block() {
    let mut m = BlockingManager::with_epoch_nanos(EPOCH_NANOS);
    let kept = peer();
    let p = peer();
    m.block_peer_at(kept.clone(), BlockReason::LowScore, 3);
    m.block_peer_at(p.clone(), BlockReason::Other, 4);
    assert!(m.unblock_peer(&p));
    assert_eq!(m.blocked_peers(), vec![kept.as_bytes().to_vec()]);
    assert_eq!(m.blocked_peer_info(&kept), Some(BlockedPeerInfo { blocked_at: 3, reason: BlockReason::LowScore }));
    assert!(!m.unblock_peer(&p));
}

#[test]
fn counts_by_reason_add_up() {
    let mut m = BlockingManager::with_epoch_nanos(EPOCH_NANOS);
    let reasons = [
        BlockReason::LowScore,
        BlockReason::LowScore,
        BlockReason::FailedHandshake,
        BlockReason::OutgoingConnectionError,
        BlockReason::LowScore,
        BlockReason::Other,
    ];
    for (i, reason) in reasons.iter().enumerate() {
        m.block_peer_at(peer(), *reason, i as u128);
    }
    let counts = m.blocked_peers_by_reason();
    assert_eq!(counts.get(BlockReason::LowScore), 3);
    assert_eq!(counts.get(BlockReason::FailedHandshake), 1);
    assert_eq!(counts.get(BlockReason::OutgoingConnectionError), 1);
    assert_eq!(counts.get(BlockReason::IncomingConnectionError), 0);
    assert_eq!(counts.get(BlockReason::Other), 1);
    let total = counts.low_score
        + counts.failed_handshake
        + counts.outgoing_connection_error
        + counts.incoming_connection_error
        + counts.other;
    assert_eq!(total, m.blocked_peers_count());
}

#[test]
fn empty_manager_counts_nothing() {
    let m = BlockingManager::new(Duration::from_secs(384));
    assert_eq!(m.blocked_peers_count(), 0);
    assert!(m.blocked_peers().is_empty());
    let counts = m.blocked_peers_by_reason();
    assert_eq!(counts.get(BlockReason::LowScore), 0);
    assert_eq!(counts.get(BlockReason::Other), 0);
}

#[test]
fn connections_of_blocked_peers_are_denied() {
    let mut m = BlockingManager::with_epoch_nanos(EPOCH_NANOS);
    let blocked = peer();
    let free = peer();
    m.block_peer_at(blocked.clone(), BlockReason::LowScore, 0);
    let addr = Multiaddr::empty();
    let id = ConnectionId::new_unchecked(1);

    assert!(m.handle_pending_inbound_connection(id, &addr, &addr).is_ok());
    assert!(m.handle_established_inbound_connection(id, &blocked, &addr, &addr).is_err());
    assert!(m.handle_established_inbound_connection(id, &free, &addr, &addr).is_ok());
    assert!(m
        .handle_established_outbound_connection(id, &blocked, &addr, Endpoint::Dialer, PortUse::Reuse)
        .is_err());
    assert!(m
        .handle_established_outbound_connection(id, &free, &addr, Endpoint::Dialer, PortUse::New)
        .is_ok());
    let addresses = vec![Multiaddr::empty()];
    assert!(m
        .handle_pending_outbound_connection(id, Some(&blocked), &addresses, Endpoint::Dialer)
        .is_err());
    assert_eq!(
        m.handle_pending_outbound_connection(id, Some(&free), &addresses, Endpoint::Dialer).unwrap(),
        Vec::<Multiaddr>::new()
    );
    assert_eq!(
        m.handle_pending_outbound_connection(id, None, &addresses, Endpoint::Listener).unwrap(),
        Vec::<Multiaddr>::new()
    );

    // once unblocked, the peer may connect again
    m.unblock_peer(&blocked);
    assert!(m.handle_established_inbound_connection(id, &blocked, &addr, &addr).is_ok());
    assert_eq!(m.blocked_peers_count(), 0);
}

#[test]
fn poll_asks_to_close_connections_of_newly_blocked_peers() {
    let mut m = BlockingManager::with_epoch_nanos(EPOCH_NANOS);
    let mut cx = Context::from_waker(libp2p::futures::task::noop_waker_ref());
    assert!(m.poll(&mut cx).is_pending());
    let p = peer();
    m.block_peer_at(p.clone(), BlockReason::LowScore, 0);
    match m.poll(&mut cx) {
        Poll::Ready(ToSwarm::CloseConnection { peer_id, connection }) => {
            assert_eq!(peer_id.to_bytes(), p.as_bytes().to_vec());
            assert!(matches!(connection, CloseConnection::All));
        },
        _ => panic!("expected a request to close the peer's connections"),
    }
    assert!(m.poll(&mut cx).is_pending());
    // blocking an already blocked peer queues nothing
    m.block_peer_at(p.clone(), BlockReason::Other, 5);
    assert!(m.poll(&mut cx).is_pending());
    assert!(contains(&m, &p));
}

#[test]
fn close_requests_are_handed_out_in_blocking_order() {
    let mut m = BlockingManager::with_epoch_nanos(EPOCH_NANOS);
    let mut cx = Context::from_waker(libp2p::futures::task::noop_waker_ref());
    let first = peer();
    let second = peer();
    m.block_peer_at(first.clone(), BlockReason::LowScore, 0);
    m.block_peer_at(second.clone(), BlockReason::Other, 1);
    // unblocking leaves the queued request in place
    m.unblock_peer(&first);
    for expected in [&first, &second] {
        match m.poll(&mut cx) {
            Poll::Ready(ToSwarm::CloseConnection { peer_id, .. }) => {
                assert_eq!(peer_id.to_bytes(), expected.as_bytes().to_vec());
            },
            _ => panic!("expected a request to close the peer's connections"),
        }
    }
    assert!(m.poll(&mut cx).is_pending());
}

#[test]
fn new_records_the_epoch_of_the_duration() {
    let m = BlockingManager::new(Duration::from_millis(384_250));
    assert_eq!(m.one_epoch_duration_nanos(), 384_250_000_000);
}

#[test]
fn expiry_returns_the_lifted_peers() {
    let mut m = BlockingManager::with_epoch_nanos(EPOCH_NANOS);
    let a = peer();
    let b = peer();
    let c = peer();
    m.block_peer_at(a.clone(), BlockReason::LowScore, 0);
    m.block_peer_at(b.clone(), BlockReason::Other, 10);
    m.block_peer_at(c.clone(), BlockReason::Other, 20);
    let mut lifted: Vec<Vec<u8>> = m
        .unblock_expired_peers_at(RETAIN_NANOS + 10)
        .iter()
        .map(|k| k.as_bytes().to_vec())
        .collect();
    lifted.sort();
    let mut expected = vec![a.as_bytes().to_vec(), b.as_bytes().to_vec()];
    expected.sort();
    assert_eq!(lifted, expected);
    assert!(m.unblock_expired_peers_at(RETAIN_NANOS + 10).is_empty());
    assert_eq!(m.blocked_peers(), vec![c.as_bytes().to_vec()]);
}
