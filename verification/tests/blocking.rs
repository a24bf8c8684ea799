use std::time::Duration;

use libp2p::identity::Keypair;
use peer_blocking::blocking::{BlockReason, BlockedPeerInfo, BlockingManager, RETAIN_SCORE_EPOCH_MULTIPLIER};
use peer_blocking::peer::PeerKey;

const ONE_EPOCH: Duration = Duration::from_secs(384); // 32 slots * 12 seconds

/// Test helper to create a test BlockingManager
fn create_test_blocking_manager() -> BlockingManager {
    BlockingManager::new(ONE_EPOCH)
}

/// Test helper to create a test peer ID
fn create_test_peer_id() -> PeerKey {
    let keypair = Keypair::generate_ed25519();
    PeerKey::from_bytes(keypair.public().to_peer_id().to_bytes()).unwrap()
}

fn blocked_peers_contains(manager: &BlockingManager, peer: &PeerKey) -> bool {
    manager.blocked_peers().contains(&peer.as_bytes().to_vec())
}

fn retain_score_duration() -> Duration {
    ONE_EPOCH * RETAIN_SCORE_EPOCH_MULTIPLIER
}

fn paused_runtime() -> tokio::runtime::Runtime {
    tokio::runtime::Builder::new_current_thread()
        .enable_time()
        .start_paused(true)
        .build()
        .unwrap()
}

fn runtime() -> tokio::runtime::Runtime {
    tokio::runtime::Builder::new_current_thread().enable_time().build().unwrap()
}

#[test]
fn test_peer_blocking() {
    paused_runtime().block_on(async {
        let mut blocking_manager = create_test_blocking_manager();
        let peer_id = create_test_peer_id();

        // Initially, peer should not be blocked
        assert!(!blocked_peers_contains(&blocking_manager, &peer_id));
        assert!(blocking_manager.blocked_peers_count() == 0);

        // Block the peer with LowScore reason
        let was_blocked = blocking_manager.block_peer(peer_id.clone(), BlockReason::LowScore);
        assert!(was_blocked);

        // Verify peer is now blocked
        assert!(blocked_peers_contains(&blocking_manager, &peer_id));
        assert!(blocking_manager.blocked_peer_info(&peer_id).is_some());

        // Verify the block time and reason were recorded: the clock has not
        // moved since the manager was made
        let info = blocking_manager.blocked_peer_info(&peer_id).unwrap();
        assert_eq!(info.blocked_at, 0);
        assert_eq!(info.reason, BlockReason::LowScore);
    });
}

#[test]
fn test_peer_unblocking_after_timeout() {
    paused_runtime().block_on(async {
        let mut blocking_manager = create_test_blocking_manager();
        let peer_id = create_test_peer_id();

        // Block the peer
        blocking_manager.block_peer(peer_id.clone(), BlockReason::LowScore);
        assert!(blocked_peers_contains(&blocking_manager, &peer_id));

        // Advance time beyond the retain_score period
        tokio::time::advance(retain_score_duration() + Duration::from_secs(1)).await;

        // Check and unblock expired peers
        blocking_manager.check_and_unblock_expired_peers();

        // Verify peer is now unblocked
        assert!(!blocked_peers_contains(&blocking_manager, &peer_id));
        assert!(blocking_manager.blocked_peer_info(&peer_id).is_none());
    });
}

#[test]
fn test_peer_not_unblocked_before_timeout() {
    paused_runtime().block_on(async {
        let mut blocking_manager = create_test_blocking_manager();
        let peer_id = create_test_peer_id();

        // Block the peer
        blocking_manager.block_peer(peer_id.clone(), BlockReason::LowScore);
        assert!(blocked_peers_contains(&blocking_manager, &peer_id));

        // Advance time but not enough to trigger unblocking
        tokio::time::advance(retain_score_duration() - Duration::from_secs(10)).await;

        // Check and unblock expired peers
        blocking_manager.check_and_unblock_expired_peers();

        // Verify peer is still blocked
        assert!(blocked_peers_contains(&blocking_manager, &peer_id));
        assert!(blocking_manager.blocked_peer_info(&peer_id).is_some());
    });
}

#[test]
fn test_multiple_peers_blocking_and_unblocking() {
    paused_runtime().block_on(async {
        let mut blocking_manager = create_test_blocking_manager();
        let peer_id_1 = create_test_peer_id();
        let peer_id_2 = create_test_peer_id();
        let peer_id_3 = create_test_peer_id();

        // Block peer_1 first
        blocking_manager.block_peer(peer_id_1.clone(), BlockReason::LowScore);

        // Advance time a bit
        tokio::time::advance(Duration::from_secs(100)).await;

        // Block peer_2 and peer_3 with different reasons
        blocking_manager.block_peer(peer_id_2.clone(), BlockReason::FailedHandshake);
        blocking_manager.block_peer(peer_id_3.clone(), BlockReason::OutgoingConnectionError);

        // Verify all are blocked
        assert_eq!(blocking_manager.blocked_peers().len(), 3);
        assert_eq!(blocking_manager.blocked_peers_count(), 3);

        // Advance time enough to unblock only peer_1 (it was blocked earlier)
        tokio::time::advance(retain_score_duration() - Duration::from_secs(50)).await;

        // Check and unblock expired peers
        blocking_manager.check_and_unblock_expired_peers();

        // Only peer_1 should be unblocked
        assert!(!blocked_peers_contains(&blocking_manager, &peer_id_1));
        assert!(blocked_peers_contains(&blocking_manager, &peer_id_2));
        assert!(blocked_peers_contains(&blocking_manager, &peer_id_3));
        assert_eq!(blocking_manager.blocked_peers().len(), 2);
        assert_eq!(blocking_manager.blocked_peers_count(), 2);
    });
}

#[test]
fn test_manual_unblock_peer() {
    paused_runtime().block_on(async {
        let mut blocking_manager = create_test_blocking_manager();
        let peer_id = create_test_peer_id();

        // Block the peer
        blocking_manager.block_peer(peer_id.clone(), BlockReason::LowScore);
        assert!(blocked_peers_contains(&blocking_manager, &peer_id));

        // Manually unblock the peer
        let was_unblocked = blocking_manager.unblock_peer(&peer_id);
        assert!(was_unblocked);

        // Verify peer is now unblocked
        assert!(!blocked_peers_contains(&blocking_manager, &peer_id));
        assert!(blocking_manager.blocked_peer_info(&peer_id).is_none());

        // Trying to unblock again should return false
        let was_unblocked_again = blocking_manager.unblock_peer(&peer_id);
        assert!(!was_unblocked_again);
    });
}

#[test]
fn test_block_and_unblock() {
    runtime().block_on(async {
        let mut blocking_manager = create_test_blocking_manager();
        let peer_id = create_test_peer_id();

        // Test block_peer method
        let was_blocked = blocking_manager.block_peer(peer_id.clone(), BlockReason::Other);
        assert!(was_blocked);
        assert!(blocked_peers_contains(&blocking_manager, &peer_id));
        assert!(blocking_manager.blocked_peer_info(&peer_id).is_some());

        // Test unblock
        let was_unblocked = blocking_manager.unblock_peer(&peer_id);
        assert!(was_unblocked);
        assert!(!blocked_peers_contains(&blocking_manager, &peer_id));
    });
}

#[test]
fn test_blocked_peers_count() {
    runtime().block_on(async {
        let mut blocking_manager = create_test_blocking_manager();
        let peer_id_1 = create_test_peer_id();
        let peer_id_2 = create_test_peer_id();

        // Initially no blocked peers
        assert_eq!(blocking_manager.blocked_peers_count(), 0);

        // Block one peer
        blocking_manager.block_peer(peer_id_1.clone(), BlockReason::LowScore);
        assert_eq!(blocking_manager.blocked_peers_count(), 1);

        // Block another peer
        blocking_manager.block_peer(peer_id_2.clone(), BlockReason::FailedHandshake);
        assert_eq!(blocking_manager.blocked_peers_count(), 2);

        // Unblock one peer
        blocking_manager.unblock_peer(&peer_id_1);
        assert_eq!(blocking_manager.blocked_peers_count(), 1);
    });
}

#[test]
fn test_no_double_blocking() {
    paused_runtime().block_on(async {
        let mut blocking_manager = create_test_blocking_manager();
        let peer_id = create_test_peer_id();

        // Block the peer for the first time
        blocking_manager.block_peer(peer_id.clone(), BlockReason::IncomingConnectionError);
        assert!(blocked_peers_contains(&blocking_manager, &peer_id));
        assert_eq!(blocking_manager.blocked_peers_count(), 1);

        let first_block_info = blocking_manager.blocked_peer_info(&peer_id).unwrap();

        // Advance time slightly
        tokio::time::advance(Duration::from_secs(10)).await;

        // Try to block the same peer again with different reason
        blocking_manager.block_peer(peer_id.clone(), BlockReason::LowScore);

        // Should still be blocked but time/reason shouldn't change (no double blocking)
        assert!(blocked_peers_contains(&blocking_manager, &peer_id));
        assert_eq!(blocking_manager.blocked_peers_count(), 1);

        let second_block_info = blocking_manager.blocked_peer_info(&peer_id).unwrap();
        assert_eq!(first_block_info.blocked_at, second_block_info.blocked_at);
        assert_eq!(first_block_info.reason, second_block_info.reason);
    });
}
