//! The blocking manager: which peers are blocked, why and since when, and the
//! lifting of blocks that have lasted a retention period of whole epochs.

use crate::block_list::{
    block_list_block, block_list_established_inbound, block_list_established_outbound,
    block_list_new, block_list_on_swarm_event, block_list_peers, block_list_pending_inbound,
    block_list_pending_outbound, block_list_poll, block_list_unblock, blocked_peer_set,
    close_request_peer, close_requests,
};
use crate::clock::{clock_now, duration_as_nanos, duration_nanos, nanos_since};
use crate::peer::PeerKey;
use libp2p::allow_block_list::{Behaviour, BlockedPeers};
use libp2p::swarm::derive_prelude::{Endpoint, PortUse};
use libp2p::swarm::{ConnectionDenied, ConnectionId, FromSwarm, ToSwarm};
use libp2p::Multiaddr;
use std::convert::Infallible;
use std::task::{Context, Poll};
use tokio::time::Instant;
use vstd::prelude::*;

verus! {

/// Reasons why a peer might be blocked.
#[derive(Clone, Copy, Debug, PartialEq, Eq, Hash, Structural)]
pub enum BlockReason {
    /// Peer was blocked due to having a low gossipsub score
    LowScore,
    /// Peer was blocked due to failed handshake
    FailedHandshake,
    /// Peer was blocked due to outgoing connection errors (dial failures, timeouts, etc.)
    OutgoingConnectionError,
    /// Peer was blocked due to incoming connection errors
    IncomingConnectionError,
    /// Peer was blocked for other reasons
    Other,
}

/// When and why a peer was blocked.
#[derive(Clone, Copy, Debug, PartialEq, Eq, Structural)]
pub struct BlockedPeerInfo {
    /// When the peer was blocked, in nanoseconds since the manager's clock origin
    pub blocked_at: u128,
    /// Why the peer was blocked
    pub reason: BlockReason,
}

/// How many blocked peers there are for each reason.
#[derive(Clone, Copy, Debug, PartialEq, Eq, Structural)]
pub struct BlockedPeerCounts {
    /// Peers blocked for a low gossipsub score
    pub low_score: usize,
    /// Peers blocked for a failed handshake
    pub failed_handshake: usize,
    /// Peers blocked for outgoing connection errors
    pub outgoing_connection_error: usize,
    /// Peers blocked for incoming connection errors
    pub incoming_connection_error: usize,
    /// Peers blocked for other reasons
    pub other: usize,
}

impl BlockedPeerCounts {
    /// The count for `reason`.
    pub open spec fn count_of(self, reason: BlockReason) -> usize {
        match reason {
            BlockReason::LowScore => self.low_score,
            BlockReason::FailedHandshake => self.failed_handshake,
            BlockReason::OutgoingConnectionError => self.outgoing_connection_error,
            BlockReason::IncomingConnectionError => self.incoming_connection_error,
            BlockReason::Other => self.other,
        }
    }

    /// All counts zero.
    fn zero() -> (r: Self)
        ensures
            forall|reason: BlockReason| #[trigger] r.count_of(reason) == 0,
            r.low_score == 0,
            r.failed_handshake == 0,
            r.outgoing_connection_error == 0,
            r.incoming_connection_error == 0,
            r.other == 0,
    {
        BlockedPeerCounts {
            low_score: 0,
            failed_handshake: 0,
            outgoing_connection_error: 0,
            incoming_connection_error: 0,
            other: 0,
        }
    }

    /// The counts with one more peer for `reason`.
    fn incremented(self, reason: BlockReason) -> (r: Self)
        requires
            self.count_of(reason) < usize::MAX,
        ensures
            forall|other: BlockReason|
                #[trigger] r.count_of(other) == if other == reason {
                    self.count_of(other) + 1
                } else {
                    self.count_of(other) as int
                },
            r.low_score == self.low_score + if reason == BlockReason::LowScore { 1int } else { 0 },
            r.failed_handshake == self.failed_handshake + if reason == BlockReason::FailedHandshake { 1int } else { 0 },
            r.outgoing_connection_error == self.outgoing_connection_error + if reason
                == BlockReason::OutgoingConnectionError {
                1int
            } else {
                0
            },
            r.incoming_connection_error == self.incoming_connection_error + if reason
                == BlockReason::IncomingConnectionError {
                1int
            } else {
                0
            },
            r.other == self.other + if reason == BlockReason::Other { 1int } else { 0 },
    {
        let mut r = self;
        match reason {
            BlockReason::LowScore => r.low_score = r.low_score + 1,
            BlockReason::FailedHandshake => r.failed_handshake = r.failed_handshake + 1,
            BlockReason::OutgoingConnectionError => r.outgoing_connection_error = r.outgoing_connection_error + 1,
            BlockReason::IncomingConnectionError => r.incoming_connection_error = r.incoming_connection_error + 1,
            BlockReason::Other => r.other = r.other + 1,
        }
        r
    }

    /// The count for `reason` (zero where no peer is blocked for it).
    pub fn get(&self, reason: BlockReason) -> (r: usize)
        ensures
            r == self.count_of(reason),
            reason == BlockReason::LowScore ==> r == self.low_score,
            reason == BlockReason::FailedHandshake ==> r == self.failed_handshake,
            reason == BlockReason::OutgoingConnectionError ==> r == self.outgoing_connection_error,
            reason == BlockReason::IncomingConnectionError ==> r == self.incoming_connection_error,
            reason == BlockReason::Other ==> r == self.other,
    {
        match reason {
            BlockReason::LowScore => self.low_score,
            BlockReason::FailedHandshake => self.failed_handshake,
            BlockReason::OutgoingConnectionError => self.outgoing_connection_error,
            BlockReason::IncomingConnectionError => self.incoming_connection_error,
            BlockReason::Other => self.other,
        }
    }
}

/// A blocked peer is kept for this many epochs before it is unblocked.
pub const RETAIN_SCORE_EPOCH_MULTIPLIER: u32 = 100;

/// The longest `std::time::Duration`, in nanoseconds.
pub const MAX_DURATION_NANOS: u128 = 18_446_744_073_709_551_615_999_999_999;

/// The blocked peers, each with when and why it was blocked.
pub type BlockedMap = Map<Seq<u8>, BlockedPeerInfo>;

/// How long a block lasts: the retention period of `RETAIN_SCORE_EPOCH_MULTIPLIER` epochs.
pub open spec fn retain_score_nanos(one_epoch_nanos: u128) -> int {
    one_epoch_nanos * RETAIN_SCORE_EPOCH_MULTIPLIER
}

/// Time from `earlier` to `now`, or zero where `earlier` is later.
pub open spec fn elapsed_between(now: u128, earlier: u128) -> int {
    if now >= earlier {
        now - earlier
    } else {
        0
    }
}

/// Whether a block recorded as `info` has lasted the retention period at `now`.
pub open spec fn block_expired(info: BlockedPeerInfo, now: u128, retain: int) -> bool {
    elapsed_between(now, info.blocked_at) >= retain
}

/// The blocked peers after `peer` is blocked with `info`: a peer already
/// blocked keeps its record.
pub open spec fn after_block(m: BlockedMap, peer: Seq<u8>, info: BlockedPeerInfo) -> BlockedMap {
    if m.contains_key(peer) {
        m
    } else {
        m.insert(peer, info)
    }
}

/// The blocked peers after `peer` is unblocked.
pub open spec fn after_unblock(m: BlockedMap, peer: Seq<u8>) -> BlockedMap {
    m.remove(peer)
}

/// The peers whose block has lasted the retention period at `now`.
pub open spec fn expired_peers(m: BlockedMap, now: u128, retain: int) -> Set<Seq<u8>> {
    m.dom().filter(|k: Seq<u8>| block_expired(m[k], now, retain))
}

/// The blocked peers after every block that has lasted the retention period
/// at `now` is lifted.
pub open spec fn after_expiry(m: BlockedMap, now: u128, retain: int) -> BlockedMap {
    m.remove_keys(expired_peers(m, now, retain))
}

/// `peers` lists each peer of `s` once, and nothing else.
pub open spec fn lists_exactly(peers: Seq<PeerKey>, s: Set<Seq<u8>>) -> bool {
    &&& forall|l: int, m: int| 0 <= l < m < peers.len() ==> peers[l]@ != peers[m]@
    &&& forall|k: Seq<u8>| peers.map_values(|p: PeerKey| p@).contains(k) <==> #[trigger] s.contains(k)
}

/// The blocked peers that were blocked for `reason`.
pub open spec fn peers_with_reason(m: BlockedMap, reason: BlockReason) -> Set<Seq<u8>> {
    m.dom().filter(|k: Seq<u8>| m[k].reason == reason)
}

/// How many blocked peers were blocked for `reason`.
pub open spec fn reason_count(m: BlockedMap, reason: BlockReason) -> nat {
    peers_with_reason(m, reason).len()
}

/// A blocked peer together with when and why it was blocked.
struct BlockedEntry {
    peer: PeerKey,
    info: BlockedPeerInfo,
}

/// The peers among `entries` that were blocked for `reason`.
spec fn entry_keys_with_reason(entries: Seq<BlockedEntry>, reason: BlockReason) -> Set<Seq<u8>>
    decreases entries.len(),
{
    if entries.len() == 0 {
        Set::empty()
    } else {
        let rest = entry_keys_with_reason(entries.drop_last(), reason);
        if entries.last().info.reason == reason {
            rest.insert(entries.last().peer@)
        } else {
            rest
        }
    }
}

proof fn lemma_entry_keys_with_reason(entries: Seq<BlockedEntry>, reason: BlockReason)
    ensures
        entry_keys_with_reason(entries, reason).finite(),
        forall|k: Seq<u8>|
            #[trigger] entry_keys_with_reason(entries, reason).contains(k) <==> exists|j: int|
                0 <= j < entries.len() && entries[j].peer@ == k && entries[j].info.reason == reason,
    decreases entries.len(),
{
    if entries.len() > 0 {
        let rest = entries.drop_last();
        lemma_entry_keys_with_reason(rest, reason);
        assert forall|k: Seq<u8>|
            #[trigger] entry_keys_with_reason(entries, reason).contains(k) <==> exists|j: int|
                0 <= j < entries.len() && entries[j].peer@ == k && entries[j].info.reason == reason by {
            if entry_keys_with_reason(entries, reason).contains(k) {
                if entry_keys_with_reason(rest, reason).contains(k) {
                    let j = choose|j: int| 0 <= j < rest.len() && rest[j].peer@ == k && rest[j].info.reason == reason;
                    assert(entries[j] == rest[j]);
                } else {
                    assert(entries[entries.len() - 1].peer@ == k);
                }
            }
            if exists|j: int| 0 <= j < entries.len() && entries[j].peer@ == k && entries[j].info.reason == reason {
                let j = choose|j: int| 0 <= j < entries.len() && entries[j].peer@ == k && entries[j].info.reason == reason;
                if j < entries.len() - 1 {
                    assert(rest[j] == entries[j]);
                }
            }
        }
    }
}

/// One operation of the manager that changes its state: `block_peer_at` with
/// a peer and its record, `unblock_peer` with a peer,
/// `unblock_expired_peers_at` with the time of the check, and `poll`.
pub enum BlockingEvent {
    /// A peer is blocked with the given record
    Block(Seq<u8>, BlockedPeerInfo),
    /// A peer is unblocked
    Unblock(Seq<u8>),
    /// Expired blocks are lifted at the given time
    Expire(u128),
    /// The swarm polls for the next close request
    Polled,
}

/// The blocked peers after `event`, where blocks last `retain` nanoseconds.
pub open spec fn after_event(m: BlockedMap, event: BlockingEvent, retain: int) -> BlockedMap {
    match event {
        BlockingEvent::Block(peer, info) => after_block(m, peer, info),
        BlockingEvent::Unblock(peer) => after_unblock(m, peer),
        BlockingEvent::Expire(now) => after_expiry(m, now, retain),
        BlockingEvent::Polled => m,
    }
}

/// The blocked peers after `events`, in order, starting from `m`.
pub open spec fn replay(m: BlockedMap, events: Seq<BlockingEvent>, retain: int) -> BlockedMap
    decreases events.len(),
{
    if events.len() == 0 {
        m
    } else {
        after_event(replay(m, events.drop_last(), retain), events.last(), retain)
    }
}

/// The close-request queue after `event`, where `m` holds the peers blocked
/// before it: a newly blocked peer is queued, and a poll takes the front off.
pub open spec fn queue_after_event(queue: Seq<Seq<u8>>, m: BlockedMap, event: BlockingEvent) -> Seq<Seq<u8>> {
    match event {
        BlockingEvent::Block(peer, _) => if m.contains_key(peer) {
            queue
        } else {
            queue.push(peer)
        },
        BlockingEvent::Polled => if queue.len() > 0 {
            queue.drop_first()
        } else {
            queue
        },
        _ => queue,
    }
}

/// The close-request queue after `events`, in order, starting from a new
/// manager.
pub open spec fn replay_queue(events: Seq<BlockingEvent>, retain: int) -> Seq<Seq<u8>>
    decreases events.len(),
{
    if events.len() == 0 {
        Seq::empty()
    } else {
        queue_after_event(
            replay_queue(events.drop_last(), retain),
            replay(BlockedMap::empty(), events.drop_last(), retain),
            events.last(),
        )
    }
}

/// Replaying one more event applies it to what replaying the others gives.
pub proof fn lemma_replay_push(events: Seq<BlockingEvent>, event: BlockingEvent, retain: int)
    ensures
        replay(BlockedMap::empty(), events.push(event), retain) == after_event(
            replay(BlockedMap::empty(), events, retain),
            event,
            retain,
        ),
        replay_queue(events.push(event), retain) == queue_after_event(
            replay_queue(events, retain),
            replay(BlockedMap::empty(), events, retain),
            event,
        ),
{
    assert(events.push(event).drop_last() == events);
}

/// Manages peer blocking functionality
pub struct BlockingManager {
    /// Block list behaviour for actual connection denial
    block_list: Behaviour<BlockedPeers>,
    /// Tracking when peers were blocked and why for automatic unblocking
    blocked_peers_info: Vec<BlockedEntry>,
    /// The tracked peers as a map from peer to record
    records: Ghost<BlockedMap>,
    /// One epoch duration for calculating retain_score timeout, in nanoseconds
    one_epoch_duration_nanos: u128,
    /// The instant from which block times are measured
    clock_origin: Instant,
    /// The operations applied so far, in order
    history: Ghost<Seq<BlockingEvent>>,
    /// The clock readings taken so far, in order
    clock_readings: Ghost<Seq<u128>>,
}

impl View for BlockingManager {
    type V = BlockedMap;

    closed spec fn view(&self) -> BlockedMap {
        self.records@
    }
}

impl BlockingManager {
    spec fn key_at(&self, i: int) -> Seq<u8> {
        self.blocked_peers_info@[i].peer@
    }

    /// The internal invariant: the tracking records hold each blocked peer
    /// once, agree with the map view, and hold exactly the peers in the block
    /// list.
    pub closed spec fn wf(&self) -> bool {
        &&& self.records@.dom().finite()
        &&& self.blocked_peers_info.len() == self.records@.dom().len()
        &&& forall|i: int, j: int|
            0 <= i < j < self.blocked_peers_info.len() ==> #[trigger] self.key_at(i) != #[trigger] self.key_at(j)
        &&& forall|i: int|
            0 <= i < self.blocked_peers_info.len() ==> {
                &&& self.records@.contains_key(#[trigger] self.key_at(i))
                &&& self.records@[self.key_at(i)] == self.blocked_peers_info@[i].info
            }
        &&& forall|k: Seq<u8>|
            #[trigger] self.records@.contains_key(k) ==> exists|i: int|
                0 <= i < self.blocked_peers_info.len() && self.key_at(i) == k
        &&& blocked_peer_set(self.block_list) == self.records@.dom()
        &&& self.records@ == replay(BlockedMap::empty(), self.history@, retain_score_nanos(self.one_epoch_duration_nanos))
        &&& close_requests(self.block_list) == replay_queue(self.history@, retain_score_nanos(self.one_epoch_duration_nanos))
    }

    /// The operations applied to the manager so far, in order.
    pub closed spec fn history(&self) -> Seq<BlockingEvent> {
        self.history@
    }

    /// The readings of the manager's clock (nanoseconds since its origin)
    /// taken so far, in order: `block_peer` and
    /// `check_and_unblock_expired_peers` each take one.
    pub closed spec fn clock_readings(&self) -> Seq<u128> {
        self.clock_readings@
    }

    /// Reads the clock and records the reading.
    fn read_clock(&mut self) -> (now: u128)
        requires
            old(self).wf(),
        ensures
            final(self).wf(),
            final(self)@ == old(self)@,
            final(self).history() == old(self).history(),
            final(self).pending_closes() == old(self).pending_closes(),
            final(self).one_epoch_nanos() == old(self).one_epoch_nanos(),
            final(self).clock_readings() == old(self).clock_readings().push(now),
    {
        let ghost pre = *self;
        let now = nanos_since(&self.clock_origin);
        self.clock_readings = Ghost(self.clock_readings@.push(now));
        proof {
            Self::lemma_wf_frame(pre, *self);
        }
        now
    }

    /// The blocked peers and the queued close requests are what replaying the
    /// manager's history from a new manager gives.
    pub proof fn lemma_state_is_replay_of_history(&self)
        requires
            self.wf(),
        ensures
            self@ == replay(BlockedMap::empty(), self.history(), retain_score_nanos(self.one_epoch_nanos())),
            self.pending_closes() == replay_queue(self.history(), retain_score_nanos(self.one_epoch_nanos())),
    {
    }

    /// The invariant holds of a manager whose records and block list contents
    /// are those of one where it holds, and whose history replays to them.
    proof fn lemma_wf_frame(pre: Self, post: Self)
        requires
            pre.wf(),
            post.blocked_peers_info@ == pre.blocked_peers_info@,
            post.records@ == pre.records@,
            blocked_peer_set(post.block_list) == blocked_peer_set(pre.block_list),
            post.records@ == replay(BlockedMap::empty(), post.history@, retain_score_nanos(post.one_epoch_duration_nanos)),
            close_requests(post.block_list) == replay_queue(post.history@, retain_score_nanos(post.one_epoch_duration_nanos)),
        ensures
            post.wf(),
    {
        assert forall|i: int| 0 <= i < post.blocked_peers_info.len() implies #[trigger] post.key_at(i) == pre.key_at(i) by {}
        assert forall|k: Seq<u8>| #[trigger] post.records@.contains_key(k) implies exists|i: int|
            0 <= i < post.blocked_peers_info.len() && post.key_at(i) == k by {
            let i = choose|i: int| 0 <= i < pre.blocked_peers_info.len() && pre.key_at(i) == k;
            assert(post.key_at(i) == k);
        }
    }

    /// The position of `peer` in the tracking records, if it is there.
    fn position_of(&self, peer: &PeerKey) -> (r: Option<usize>)
        requires
            self.wf(),
        ensures
            match r {
                Some(i) => i < self.blocked_peers_info.len() && self.key_at(i as int) == peer@,
                None => !self@.contains_key(peer@),
            },
    {
        let n = self.blocked_peers_info.len();
        let mut i: usize = 0;
        while i < n
            invariant
                self.wf(),
                n == self.blocked_peers_info.len(),
                i <= n,
                forall|j: int| 0 <= j < i ==> #[trigger] self.key_at(j) != peer@,
            decreases n - i,
        {
            if self.blocked_peers_info[i].peer.same_peer(peer) {
                return Some(i);
            }
            i = i + 1;
        }
        proof {
            if self@.contains_key(peer@) {
                let j = choose|j: int| 0 <= j < n && self.key_at(j) == peer@;
                assert(self.key_at(j) != peer@);
            }
        }
        None
    }

    /// The peers whose connections are still to be closed, front first: each
    /// newly blocked peer is queued, and `poll` hands out the front one.
    pub closed spec fn pending_closes(&self) -> Seq<Seq<u8>> {
        close_requests(self.block_list)
    }

    /// One epoch, in nanoseconds.
    pub closed spec fn one_epoch_nanos(&self) -> u128 {
        self.one_epoch_duration_nanos
    }

    /// Makes a manager with no blocked peers whose epoch lasts
    /// `one_epoch_duration`.
    pub fn new(one_epoch_duration: std::time::Duration) -> (r: Self)
        ensures
            r.wf(),
            r@ == BlockedMap::empty(),
            r.pending_closes() == Seq::<Seq<u8>>::empty(),
            r.history() == Seq::<BlockingEvent>::empty(),
            r.clock_readings() == Seq::<u128>::empty(),
            r.one_epoch_nanos() == duration_as_nanos(one_epoch_duration),
    {
        let nanos = duration_nanos(&one_epoch_duration);
        Self::with_epoch_nanos(nanos)
    }

    /// Makes a manager with no blocked peers whose epoch lasts
    /// `one_epoch_duration_nanos` nanoseconds.
    pub fn with_epoch_nanos(one_epoch_duration_nanos: u128) -> (r: Self)
        ensures
            r.wf(),
            r@ == BlockedMap::empty(),
            r.pending_closes() == Seq::<Seq<u8>>::empty(),
            r.history() == Seq::<BlockingEvent>::empty(),
            r.clock_readings() == Seq::<u128>::empty(),
            r.one_epoch_nanos() == one_epoch_duration_nanos,
    {
        let block_list = block_list_new();
        let clock_origin = clock_now();
        BlockingManager {
            block_list,
            blocked_peers_info: Vec::new(),
            records: Ghost(BlockedMap::empty()),
            one_epoch_duration_nanos,
            clock_origin,
            history: Ghost(Seq::empty()),
            clock_readings: Ghost(Seq::empty()),
        }
    }

    /// One epoch, in nanoseconds.
    pub fn one_epoch_duration_nanos(&self) -> (r: u128)
        ensures
            r == self.one_epoch_nanos(),
    {
        self.one_epoch_duration_nanos
    }

    /// Block a peer with a reason, recording the time of the call for
    /// automatic unblocking. Returns whether the peer was newly blocked.
    pub fn block_peer(&mut self, peer_id: PeerKey, reason: BlockReason) -> (r: bool)
        requires
            old(self).wf(),
        ensures
            final(self).wf(),
            final(self).one_epoch_nanos() == old(self).one_epoch_nanos(),
            r == !old(self)@.contains_key(peer_id@),
            final(self)@.contains_key(peer_id@),
            final(self).pending_closes() == if r {
                old(self).pending_closes().push(peer_id@)
            } else {
                old(self).pending_closes()
            },
            exists|now: u128|
                {
                    &&& final(self)@ == after_block(old(self)@, peer_id@, BlockedPeerInfo { blocked_at: now, reason })
                    &&& final(self).history() == old(self).history().push(
                        BlockingEvent::Block(peer_id@, BlockedPeerInfo { blocked_at: now, reason }),
                    )
                },
            final(self).clock_readings().len() == old(self).clock_readings().len() + 1,
            final(self).clock_readings().drop_last() == old(self).clock_readings(),
            final(self)@ == after_block(
                old(self)@,
                peer_id@,
                BlockedPeerInfo { blocked_at: final(self).clock_readings().last(), reason },
            ),
            final(self).history() == old(self).history().push(
                BlockingEvent::Block(peer_id@, BlockedPeerInfo { blocked_at: final(self).clock_readings().last(), reason }),
            ),
    {
        let now = self.read_clock();
        self.block_peer_at(peer_id, reason, now)
    }

    /// Block a peer with a reason at time `now` (nanoseconds since the clock
    /// origin). Returns whether the peer was newly blocked; a peer that was
    /// already blocked keeps its time and reason.
    pub fn block_peer_at(&mut self, peer_id: PeerKey, reason: BlockReason, now: u128) -> (r: bool)
        requires
            old(self).wf(),
        ensures
            final(self).clock_readings() == old(self).clock_readings(),
            final(self).wf(),
            final(self).one_epoch_nanos() == old(self).one_epoch_nanos(),
            r == !old(self)@.contains_key(peer_id@),
            final(self)@.contains_key(peer_id@),
            final(self).pending_closes() == if r {
                old(self).pending_closes().push(peer_id@)
            } else {
                old(self).pending_closes()
            },
            final(self)@ == after_block(old(self)@, peer_id@, BlockedPeerInfo { blocked_at: now, reason }),
            final(self).history() == old(self).history().push(
                BlockingEvent::Block(peer_id@, BlockedPeerInfo { blocked_at: now, reason }),
            ),
    {
        proof {
            use_type_invariant(&peer_id);
        }
        let ghost pre = *self;
        let ghost key = peer_id@;
        let ghost event = BlockingEvent::Block(key, BlockedPeerInfo { blocked_at: now, reason });
        let inserted = block_list_block(&mut self.block_list, &peer_id);
        self.history = Ghost(self.history@.push(event));
        proof {
            lemma_replay_push(pre.history@, event, retain_score_nanos(self.one_epoch_duration_nanos));
        }
        if inserted {
            let info = BlockedPeerInfo { blocked_at: now, reason };
            self.blocked_peers_info.push(BlockedEntry { peer: peer_id, info });
            self.records = Ghost(self.records@.insert(key, info));
            proof {
                let n = pre.blocked_peers_info.len() as int;
                assert(self.key_at(n) == key);
                assert forall|i: int| 0 <= i < n implies #[trigger] self.key_at(i) == pre.key_at(i) by {
                    assert(self.blocked_peers_info@[i] == pre.blocked_peers_info@[i]);
                }
                assert forall|i: int| 0 <= i < n implies self.key_at(i) != key by {
                    assert(pre.records@.contains_key(pre.key_at(i)));
                }
                assert forall|k: Seq<u8>| #[trigger] self.records@.contains_key(k) implies exists|i: int|
                    0 <= i < self.blocked_peers_info.len() && self.key_at(i) == k by {
                    if k == key {
                        assert(self.key_at(n) == k);
                    } else {
                        assert(pre.records@.contains_key(k));
                        let i = choose|i: int| 0 <= i < n && pre.key_at(i) == k;
                        assert(self.key_at(i) == k);
                    }
                }
                assert(blocked_peer_set(self.block_list) =~= self.records@.dom());
                assert(self.wf());
            }
        } else {
            proof {
                assert(blocked_peer_set(self.block_list) =~= self.records@.dom());
                Self::lemma_wf_frame(pre, *self);
            }
        }
        inserted
    }

    /// Unblock a peer and remove it from tracking. Returns whether the peer
    /// was blocked.
    pub fn unblock_peer(&mut self, peer_id: &PeerKey) -> (r: bool)
        requires
            old(self).wf(),
        ensures
            final(self).clock_readings() == old(self).clock_readings(),
            final(self).wf(),
            final(self).one_epoch_nanos() == old(self).one_epoch_nanos(),
            final(self).pending_closes() == old(self).pending_closes(),
            r == old(self)@.contains_key(peer_id@),
            !final(self)@.contains_key(peer_id@),
            final(self)@ == after_unblock(old(self)@, peer_id@),
            final(self).history() == old(self).history().push(BlockingEvent::Unblock(peer_id@)),
    {
        proof {
            use_type_invariant(peer_id);
        }
        let ghost pre = *self;
        let ghost key = peer_id@;
        let position = self.position_of(peer_id);
        let was_removed = block_list_unblock(&mut self.block_list, peer_id);
        self.history = Ghost(self.history@.push(BlockingEvent::Unblock(key)));
        proof {
            lemma_replay_push(pre.history@, BlockingEvent::Unblock(key), retain_score_nanos(self.one_epoch_duration_nanos));
        }
        if was_removed {
            match position {
                Some(pos) => {
                    self.blocked_peers_info.remove(pos);
                    self.records = Ghost(self.records@.remove(key));
                    proof {
                        let n = pre.blocked_peers_info.len() as int;
                        let p = pos as int;
                        assert forall|i: int| 0 <= i < n - 1 implies #[trigger] self.key_at(i) == pre.key_at(
                            if i < p { i } else { i + 1 },
                        ) && self.blocked_peers_info@[i] == pre.blocked_peers_info@[if i < p { i } else { i + 1 }] by {}
                        assert forall|i: int, j: int| 0 <= i < j < n - 1 implies #[trigger] self.key_at(i) != #[trigger] self.key_at(j) by {
                            assert(self.key_at(i) == pre.key_at(if i < p { i } else { i + 1 }));
                            assert(self.key_at(j) == pre.key_at(if j < p { j } else { j + 1 }));
                        }
                        assert forall|i: int| 0 <= i < n - 1 implies {
                            &&& self.records@.contains_key(#[trigger] self.key_at(i))
                            &&& self.records@[self.key_at(i)] == self.blocked_peers_info@[i].info
                        } by {
                            let oi = if i < p { i } else { i + 1 };
                            assert(self.key_at(i) == pre.key_at(oi));
                            assert(pre.records@.contains_key(pre.key_at(oi)));
                            assert(pre.key_at(oi) != pre.key_at(p));
                        }
                        assert forall|k: Seq<u8>| #[trigger] self.records@.contains_key(k) implies exists|i: int|
                            0 <= i < self.blocked_peers_info.len() && self.key_at(i) == k by {
                            assert(pre.records@.contains_key(k));
                            let j = choose|j: int| 0 <= j < n && pre.key_at(j) == k;
                            assert(j != p);
                            let i = if j < p { j } else { j - 1 };
                            assert(self.key_at(i) == pre.key_at(j));
                        }
                        assert(blocked_peer_set(self.block_list) =~= self.records@.dom());
                    }
                },
                None => {
                    proof {
                        assert(false);
                    }
                },
            }
        } else {
            proof {
                assert(blocked_peer_set(self.block_list) =~= self.records@.dom());
                assert(self.records@.remove(key) =~= self.records@);
                Self::lemma_wf_frame(pre, *self);
            }
        }
        was_removed
    }

    /// The peers whose block has lasted the retention period at `now`.
    fn expired_at(&self, now: u128, retain: u128) -> (peers: Vec<PeerKey>)
        requires
            self.wf(),
        ensures
            lists_exactly(peers@, expired_peers(self@, now, retain as int)),
    {
        let n = self.blocked_peers_info.len();
        let mut peers: Vec<PeerKey> = Vec::new();
        let mut i: usize = 0;
        while i < n
            invariant
                self.wf(),
                n == self.blocked_peers_info.len(),
                i <= n,
                forall|l: int, j: int| #![trigger peers@[l], self.key_at(j)] 0 <= l < peers.len() && i <= j < n ==> peers@[l]@ != self.key_at(j),
                forall|l: int|
                    0 <= l < peers.len() ==> #[trigger] self@.contains_key(peers@[l]@) && block_expired(
                        self@[peers@[l]@],
                        now,
                        retain as int,
                    ),
                forall|j: int| #![trigger self.blocked_peers_info@[j]]
                    0 <= j < i && block_expired(self.blocked_peers_info@[j].info, now, retain as int) ==> exists|l: int|
                        0 <= l < peers.len() && peers@[l]@ == self.key_at(j),
                forall|l: int, m: int| 0 <= l < m < peers.len() ==> peers@[l]@ != peers@[m]@,
            decreases n - i,
        {
            let info = self.blocked_peers_info[i].info;
            let elapsed: u128 = if now >= info.blocked_at { now - info.blocked_at } else { 0 };
            let ghost before = peers@;
            if elapsed >= retain {
                let key = self.blocked_peers_info[i].peer.clone();
                peers.push(key);
                proof {
                    let last = before.len() as int;
                    assert(peers@[last]@ == self.key_at(i as int));
                    assert forall|l: int| 0 <= l < last implies peers@[l] == before[l] by {}
                    assert forall|l: int| 0 <= l < last implies peers@[l]@ != self.key_at(i as int) by {
                        assert(peers@[l] == before[l]);
                    }
                    assert forall|l: int, j: int| #![trigger peers@[l], self.key_at(j)] 0 <= l < peers.len() && i + 1 <= j < n implies peers@[l]@ != self.key_at(j) by {
                        if l == last {
                            assert(self.key_at(i as int) != self.key_at(j));
                        } else {
                            assert(peers@[l] == before[l]);
                        }
                    }
                    assert forall|j: int| #![trigger self.blocked_peers_info@[j]]
                        0 <= j < i + 1 && block_expired(self.blocked_peers_info@[j].info, now, retain as int) implies exists|l: int|
                            0 <= l < peers.len() && peers@[l]@ == self.key_at(j) by {
                        if j < i {
                            let l = choose|l: int| 0 <= l < before.len() && before[l]@ == self.key_at(j);
                            assert(peers@[l] == before[l]);
                        } else {
                            assert(peers@[last]@ == self.key_at(j));
                        }
                    }
                    assert forall|l: int| 0 <= l < peers.len() implies #[trigger] self@.contains_key(peers@[l]@) && block_expired(
                        self@[peers@[l]@],
                        now,
                        retain as int,
                    ) by {
                        if l < last {
                            assert(peers@[l] == before[l]);
                        }
                    }
                }
            } else {
                proof {
                    assert(!block_expired(self.blocked_peers_info@[i as int].info, now, retain as int));
                    assert forall|j: int| #![trigger self.blocked_peers_info@[j]]
                        0 <= j < i + 1 && block_expired(self.blocked_peers_info@[j].info, now, retain as int) implies exists|l: int|
                            0 <= l < peers.len() && peers@[l]@ == self.key_at(j) by {
                        let l = choose|l: int| 0 <= l < peers.len() && peers@[l]@ == self.key_at(j);
                        assert(peers@[l]@ == self.key_at(j));
                    }
                }
            }
            i = i + 1;
        }
        proof {
            let keys = peers@.map_values(|p: PeerKey| p@);
            assert forall|k: Seq<u8>| keys.contains(k) <==> #[trigger] expired_peers(self@, now, retain as int).contains(k) by {
                if keys.contains(k) {
                    let l = choose|l: int| 0 <= l < keys.len() && keys[l] == k;
                    assert(self@.contains_key(peers@[l]@));
                }
                if expired_peers(self@, now, retain as int).contains(k) {
                    assert(self@.contains_key(k));
                    let j = choose|j: int| 0 <= j < n && self.key_at(j) == k;
                    let l = choose|l: int| 0 <= l < peers.len() && peers@[l]@ == self.key_at(j);
                    assert(keys[l] == k);
                }
            }
        }
        peers
    }

    /// Check and unblock peers that have been blocked long enough, reading
    /// the time from the clock. Returns the peers that were unblocked.
    pub fn check_and_unblock_expired_peers(&mut self) -> (unblocked: Vec<PeerKey>)
        requires
            old(self).wf(),
            retain_score_nanos(old(self).one_epoch_nanos()) <= MAX_DURATION_NANOS,
        ensures
            final(self).wf(),
            final(self).one_epoch_nanos() == old(self).one_epoch_nanos(),
            final(self).pending_closes() == old(self).pending_closes(),
            exists|now: u128|
                {
                    &&& final(self)@ == after_expiry(old(self)@, now, retain_score_nanos(old(self).one_epoch_nanos()))
                    &&& lists_exactly(
                        unblocked@,
                        expired_peers(old(self)@, now, retain_score_nanos(old(self).one_epoch_nanos())),
                    )
                    &&& final(self).history() == old(self).history().push(BlockingEvent::Expire(now))
                },
            final(self).clock_readings().len() == old(self).clock_readings().len() + 1,
            final(self).clock_readings().drop_last() == old(self).clock_readings(),
            final(self)@ == after_expiry(
                old(self)@,
                final(self).clock_readings().last(),
                retain_score_nanos(old(self).one_epoch_nanos()),
            ),
            lists_exactly(
                unblocked@,
                expired_peers(old(self)@, final(self).clock_readings().last(), retain_score_nanos(old(self).one_epoch_nanos())),
            ),
            final(self).history() == old(self).history().push(BlockingEvent::Expire(final(self).clock_readings().last())),
    {
        let now = self.read_clock();
        self.unblock_expired_peers_at(now)
    }

    /// Unblock every peer whose block has lasted the retention period
    /// (`RETAIN_SCORE_EPOCH_MULTIPLIER` epochs) at time `now`, in nanoseconds
    /// since the clock origin, and keep the others as they were. Returns the
    /// peers that were unblocked.
    pub fn unblock_expired_peers_at(&mut self, now: u128) -> (unblocked: Vec<PeerKey>)
        requires
            old(self).wf(),
            retain_score_nanos(old(self).one_epoch_nanos()) <= MAX_DURATION_NANOS,
        ensures
            final(self).clock_readings() == old(self).clock_readings(),
            final(self).wf(),
            final(self).one_epoch_nanos() == old(self).one_epoch_nanos(),
            final(self).pending_closes() == old(self).pending_closes(),
            final(self)@ == after_expiry(old(self)@, now, retain_score_nanos(old(self).one_epoch_nanos())),
            lists_exactly(unblocked@, expired_peers(old(self)@, now, retain_score_nanos(old(self).one_epoch_nanos()))),
            final(self).history() == old(self).history().push(BlockingEvent::Expire(now)),
    {
        let ghost start = *self;
        let retain_score_duration = self.one_epoch_duration_nanos * (RETAIN_SCORE_EPOCH_MULTIPLIER as u128);
        let peers_to_unblock = self.expired_at(now, retain_score_duration);
        let ghost pre = self@;
        let ghost keys = peers_to_unblock@.map_values(|p: PeerKey| p@);
        let n = peers_to_unblock.len();
        let mut i: usize = 0;
        while i < n
            invariant
                self.wf(),
                self.one_epoch_nanos() == old(self).one_epoch_nanos(),
                self.pending_closes() == old(self).pending_closes(),
                self.clock_readings() == old(self).clock_readings(),
                n == peers_to_unblock.len(),
                keys == peers_to_unblock@.map_values(|p: PeerKey| p@),
                i <= n,
                self@ == pre.remove_keys(keys.take(i as int).to_set()),
            decreases n - i,
        {
            self.unblock_peer(&peers_to_unblock[i]);
            proof {
                assert(keys.take(i + 1) == keys.take(i as int).push(keys[i as int]));
                keys.take(i as int).lemma_push_to_set_commute(keys[i as int]);
                assert(self@ =~= pre.remove_keys(keys.take(i + 1).to_set()));
            }
            i = i + 1;
        }
        proof {
            assert(keys.take(n as int) == keys);
            assert(keys.to_set() =~= expired_peers(pre, now, retain_score_duration as int));
            assert(self@ =~= after_expiry(pre, now, retain_score_duration as int));
        }
        let ghost before = *self;
        self.history = Ghost(start.history@.push(BlockingEvent::Expire(now)));
        proof {
            lemma_replay_push(start.history@, BlockingEvent::Expire(now), retain_score_duration as int);
            Self::lemma_wf_frame(before, *self);
        }
        peers_to_unblock
    }

    /// Get the count of blocked peers grouped by reason
    pub fn blocked_peers_by_reason(&self) -> (counts: BlockedPeerCounts)
        requires
            self.wf(),
        ensures
            forall|reason: BlockReason| #[trigger] counts.count_of(reason) == reason_count(self@, reason),
            counts.low_score == reason_count(self@, BlockReason::LowScore),
            counts.failed_handshake == reason_count(self@, BlockReason::FailedHandshake),
            counts.outgoing_connection_error == reason_count(self@, BlockReason::OutgoingConnectionError),
            counts.incoming_connection_error == reason_count(self@, BlockReason::IncomingConnectionError),
            counts.other == reason_count(self@, BlockReason::Other),
    {
        let n = self.blocked_peers_info.len();
        let mut counts = BlockedPeerCounts::zero();
        let mut i: usize = 0;
        proof {
            assert forall|reason: BlockReason| #[trigger] counts.count_of(reason) == entry_keys_with_reason(
                self.blocked_peers_info@.take(0),
                reason,
            ).len() by {
                assert(self.blocked_peers_info@.take(0).len() == 0);
            }
        }
        while i < n
            invariant
                self.wf(),
                n == self.blocked_peers_info.len(),
                i <= n,
                forall|reason: BlockReason| #[trigger] counts.count_of(reason) <= i,
                forall|reason: BlockReason|
                    #[trigger] counts.count_of(reason) == entry_keys_with_reason(self.blocked_peers_info@.take(i as int), reason).len(),
            decreases n - i,
        {
            let reason = self.blocked_peers_info[i].info.reason;
            let ghost before = counts;
            counts = counts.incremented(reason);
            proof {
                let prefix = self.blocked_peers_info@.take(i as int);
                let next = self.blocked_peers_info@.take(i + 1);
                assert(next.drop_last() == prefix);
                assert(next.last() == self.blocked_peers_info@[i as int]);
                assert forall|r: BlockReason|
                    #[trigger] counts.count_of(r) == entry_keys_with_reason(next, r).len() by {
                    lemma_entry_keys_with_reason(prefix, r);
                    if r == reason {
                        if entry_keys_with_reason(prefix, r).contains(self.key_at(i as int)) {
                            let j = choose|j: int| 0 <= j < prefix.len() && prefix[j].peer@ == self.key_at(i as int) && prefix[j].info.reason == r;
                            assert(self.key_at(j) == prefix[j].peer@);
                        }
                    }
                }
            }
            i = i + 1;
        }
        proof {
            assert(self.blocked_peers_info@.take(n as int) == self.blocked_peers_info@);
            assert forall|reason: BlockReason| #[trigger] counts.count_of(reason) == reason_count(self@, reason) by {
                lemma_entry_keys_with_reason(self.blocked_peers_info@, reason);
                assert forall|k: Seq<u8>| entry_keys_with_reason(self.blocked_peers_info@, reason).contains(k) <==> #[trigger] peers_with_reason(self@, reason).contains(k) by {
                    if peers_with_reason(self@, reason).contains(k) {
                        let j = choose|j: int| 0 <= j < n && self.key_at(j) == k;
                        assert(self.blocked_peers_info@[j].peer@ == k);
                    }
                    if entry_keys_with_reason(self.blocked_peers_info@, reason).contains(k) {
                        let j = choose|j: int| 0 <= j < n && self.blocked_peers_info@[j].peer@ == k && self.blocked_peers_info@[j].info.reason == reason;
                        assert(self.key_at(j) == k);
                    }
                }
                assert(entry_keys_with_reason(self.blocked_peers_info@, reason) =~= peers_with_reason(self@, reason));
            }
            assert(counts.count_of(BlockReason::LowScore) == reason_count(self@, BlockReason::LowScore));
            assert(counts.count_of(BlockReason::FailedHandshake) == reason_count(self@, BlockReason::FailedHandshake));
            assert(counts.count_of(BlockReason::OutgoingConnectionError) == reason_count(
                self@,
                BlockReason::OutgoingConnectionError,
            ));
            assert(counts.count_of(BlockReason::IncomingConnectionError) == reason_count(
                self@,
                BlockReason::IncomingConnectionError,
            ));
            assert(counts.count_of(BlockReason::Other) == reason_count(self@, BlockReason::Other));
        }
        counts
    }

    /// Get list of currently blocked peers, each as the bytes of its peer id
    pub fn blocked_peers(&self) -> (peers: Vec<Vec<u8>>)
        requires
            self.wf(),
        ensures
            peers@.map_values(|v: Vec<u8>| v@).to_set() == self@.dom(),
            peers@.map_values(|v: Vec<u8>| v@).no_duplicates(),
    {
        block_list_peers(&self.block_list)
    }

    /// How many peers are blocked.
    pub fn blocked_peers_count(&self) -> (count: usize)
        requires
            self.wf(),
        ensures
            count == self@.dom().len(),
    {
        self.blocked_peers_info.len()
    }

    /// When and why `peer_id` was blocked, if it is blocked.
    pub fn blocked_peer_info(&self, peer_id: &PeerKey) -> (r: Option<BlockedPeerInfo>)
        requires
            self.wf(),
        ensures
            r == if self@.contains_key(peer_id@) {
                Some(self@[peer_id@])
            } else {
                None::<BlockedPeerInfo>
            },
    {
        match self.position_of(peer_id) {
            Some(i) => Some(self.blocked_peers_info[i].info),
            None => None,
        }
    }

    /// Whether an inbound connection that is still pending may go on: the
    /// block list lets every one through, as the peer is not known yet.
    pub fn handle_pending_inbound_connection(
        &mut self,
        connection_id: ConnectionId,
        local_addr: &Multiaddr,
        remote_addr: &Multiaddr,
    ) -> (r: Result<(), ConnectionDenied>)
        requires
            old(self).wf(),
        ensures
            final(self).wf(),
            final(self)@ == old(self)@,
            final(self).one_epoch_nanos() == old(self).one_epoch_nanos(),
            final(self).pending_closes() == old(self).pending_closes(),
            final(self).history() == old(self).history(),
            r.is_ok(),
    {
        let ghost pre = *self;
        let r = block_list_pending_inbound(&mut self.block_list, connection_id, local_addr, remote_addr);
        proof {
            Self::lemma_wf_frame(pre, *self);
        }
        r
    }

    /// Whether an established inbound connection from `peer` may stay:
    /// denied exactly when the peer is blocked.
    pub fn handle_established_inbound_connection(
        &mut self,
        connection_id: ConnectionId,
        peer: &PeerKey,
        local_addr: &Multiaddr,
        remote_addr: &Multiaddr,
    ) -> (r: Result<(), ConnectionDenied>)
        requires
            old(self).wf(),
        ensures
            final(self).wf(),
            final(self)@ == old(self)@,
            final(self).one_epoch_nanos() == old(self).one_epoch_nanos(),
            final(self).pending_closes() == old(self).pending_closes(),
            final(self).history() == old(self).history(),
            r.is_ok() == !old(self)@.contains_key(peer@),
    {
        proof {
            use_type_invariant(peer);
        }
        let ghost pre = *self;
        let r = block_list_established_inbound(&mut self.block_list, connection_id, peer, local_addr, remote_addr);
        proof {
            Self::lemma_wf_frame(pre, *self);
        }
        r
    }

    /// Whether a dial may go on: denied exactly when the peer is known and
    /// blocked. On success no address is added to the dial.
    pub fn handle_pending_outbound_connection(
        &mut self,
        connection_id: ConnectionId,
        maybe_peer: Option<&PeerKey>,
        addresses: &[Multiaddr],
        effective_role: Endpoint,
    ) -> (r: Result<Vec<Multiaddr>, ConnectionDenied>)
        requires
            old(self).wf(),
        ensures
            final(self).wf(),
            final(self)@ == old(self)@,
            final(self).one_epoch_nanos() == old(self).one_epoch_nanos(),
            final(self).pending_closes() == old(self).pending_closes(),
            final(self).history() == old(self).history(),
            r.is_ok() == match maybe_peer {
                Some(p) => !old(self)@.contains_key(p@),
                None => true,
            },
            r matches Ok(v) ==> v@.len() == 0,
    {
        proof {
            if let Some(p) = maybe_peer {
                use_type_invariant(p);
            }
        }
        let ghost pre = *self;
        let r = block_list_pending_outbound(&mut self.block_list, connection_id, maybe_peer, addresses, effective_role);
        proof {
            Self::lemma_wf_frame(pre, *self);
        }
        r
    }

    /// Whether an established outbound connection to `peer` may stay:
    /// denied exactly when the peer is blocked.
    pub fn handle_established_outbound_connection(
        &mut self,
        connection_id: ConnectionId,
        peer: &PeerKey,
        addr: &Multiaddr,
        role_override: Endpoint,
        port_use: PortUse,
    ) -> (r: Result<(), ConnectionDenied>)
        requires
            old(self).wf(),
        ensures
            final(self).wf(),
            final(self)@ == old(self)@,
            final(self).one_epoch_nanos() == old(self).one_epoch_nanos(),
            final(self).pending_closes() == old(self).pending_closes(),
            final(self).history() == old(self).history(),
            r.is_ok() == !old(self)@.contains_key(peer@),
    {
        proof {
            use_type_invariant(peer);
        }
        let ghost pre = *self;
        let r = block_list_established_outbound(&mut self.block_list, connection_id, peer, addr, role_override, port_use);
        proof {
            Self::lemma_wf_frame(pre, *self);
        }
        r
    }

    /// Hands a swarm event to the block list; the blocked peers stay as they
    /// were.
    pub fn on_swarm_event(&mut self, event: FromSwarm)
        requires
            old(self).wf(),
        ensures
            final(self).wf(),
            final(self)@ == old(self)@,
            final(self).one_epoch_nanos() == old(self).one_epoch_nanos(),
            final(self).pending_closes() == old(self).pending_closes(),
            final(self).history() == old(self).history(),
    {
        let ghost pre = *self;
        block_list_on_swarm_event(&mut self.block_list, event);
        proof {
            Self::lemma_wf_frame(pre, *self);
        }
    }

    /// Forwards the block list's requests to close the connections of newly
    /// blocked peers: where one is queued, the front one is taken off the
    /// queue and returned ready, as a request to close all connections of
    /// that peer; otherwise the result is `Pending`. The
    /// blocked peers stay as they were.
    pub fn poll(&mut self, cx: &mut Context<'_>) -> (r: Poll<ToSwarm<Infallible, Infallible>>)
        requires
            old(self).wf(),
        ensures
            final(self).wf(),
            final(self)@ == old(self)@,
            final(self).one_epoch_nanos() == old(self).one_epoch_nanos(),
            old(self).pending_closes().len() > 0 ==> r is Ready && final(self).pending_closes()
                == old(self).pending_closes().drop_first(),
            r matches Poll::Ready(request) ==> close_request_peer(request) == Some(old(self).pending_closes()[0]),
            final(self).history() == old(self).history().push(BlockingEvent::Polled),
            old(self).pending_closes().len() == 0 ==> r is Pending && final(self).pending_closes()
                == old(self).pending_closes(),
    {
        let ghost pre = *self;
        let r = block_list_poll(&mut self.block_list, cx);
        self.history = Ghost(self.history@.push(BlockingEvent::Polled));
        proof {
            lemma_replay_push(pre.history@, BlockingEvent::Polled, retain_score_nanos(self.one_epoch_duration_nanos));
            Self::lemma_wf_frame(pre, *self);
        }
        r
    }
}

} // verus!