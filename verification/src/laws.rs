//! Properties of blocking that span several operations, stated over the maps
//! of blocked peers that the manager's contracts speak of.

use crate::blocking::{
    after_block, after_expiry, after_unblock, block_expired, elapsed_between, peers_with_reason,
    after_event, reason_count, replay, replay_queue, retain_score_nanos, BlockReason, BlockedMap,
    BlockedPeerInfo, BlockingEvent, BlockingManager,
};
use vstd::prelude::*;

verus! {

/// Unblocking a peer undoes blocking it: blocking a peer that was not blocked
/// and then unblocking it gives back the blocked peers as they were.
pub proof fn lemma_unblock_undoes_block(m: BlockedMap, peer: Seq<u8>, info: BlockedPeerInfo)
    requires
        !m.contains_key(peer),
    ensures
        after_unblock(after_block(m, peer, info), peer) == m,
{
    assert(after_unblock(after_block(m, peer, info), peer) =~= m);
}

/// No double blocking: blocking a peer that is already blocked keeps the time
/// and reason of the first block.
pub proof fn lemma_no_double_blocking(m: BlockedMap, peer: Seq<u8>, first: BlockedPeerInfo, second: BlockedPeerInfo)
    ensures
        after_block(after_block(m, peer, first), peer, second) == after_block(m, peer, first),
        after_block(after_block(m, peer, first), peer, second)[peer] == if m.contains_key(peer) {
            m[peer]
        } else {
            first
        },
{
}

/// A block lasts exactly the retention period: a blocked peer is unblocked by
/// an expiry check at `now` exactly when the time elapsed since it was blocked
/// has reached the retention period, and otherwise keeps its record; a peer
/// that is not blocked stays unblocked.
pub proof fn lemma_expiry_lifts_exactly_expired(m: BlockedMap, now: u128, retain: int, peer: Seq<u8>)
    ensures
        after_expiry(m, now, retain).contains_key(peer) <==> m.contains_key(peer) && !block_expired(m[peer], now, retain),
        after_expiry(m, now, retain).contains_key(peer) ==> after_expiry(m, now, retain)[peer] == m[peer],
{
}

/// After an expiry check no remaining block has lasted the retention period,
/// so a second check at the same time changes nothing.
pub proof fn lemma_expiry_idempotent(m: BlockedMap, now: u128, retain: int)
    ensures
        forall|peer: Seq<u8>|
            #[trigger] after_expiry(m, now, retain).contains_key(peer) ==> !block_expired(
                after_expiry(m, now, retain)[peer],
                now,
                retain,
            ),
        after_expiry(after_expiry(m, now, retain), now, retain) == after_expiry(m, now, retain),
{
    assert(after_expiry(after_expiry(m, now, retain), now, retain) =~= after_expiry(m, now, retain));
}

/// A later expiry check subsumes an earlier one: checking at `earlier` and
/// then at `later` leaves the same peers blocked as checking at `later` alone.
pub proof fn lemma_later_expiry_subsumes(m: BlockedMap, earlier: u128, later: u128, retain: int)
    requires
        earlier <= later,
    ensures
        after_expiry(after_expiry(m, earlier, retain), later, retain) == after_expiry(m, later, retain),
{
    assert forall|peer: Seq<u8>| #[trigger] m.contains_key(peer) && block_expired(m[peer], earlier, retain) implies block_expired(
        m[peer],
        later,
        retain,
    ) by {
        assert(elapsed_between(later, m[peer].blocked_at) >= elapsed_between(earlier, m[peer].blocked_at));
    }
    assert(after_expiry(after_expiry(m, earlier, retain), later, retain) =~= after_expiry(m, later, retain));
}

/// A peer that is newly blocked at `blocked_at` stays blocked through every
/// expiry check before the retention period has passed, and is unblocked by
/// the first check once it has.
pub proof fn lemma_block_lasts_retention_period(
    m: BlockedMap,
    peer: Seq<u8>,
    reason: BlockReason,
    blocked_at: u128,
    now: u128,
    retain: int,
)
    requires
        !m.contains_key(peer),
        blocked_at <= now,
    ensures
        after_expiry(after_block(m, peer, BlockedPeerInfo { blocked_at, reason }), now, retain).contains_key(peer)
            <==> now - blocked_at < retain,
{
}

/// The counts by reason add up to the number of blocked peers.
pub proof fn lemma_reason_counts_sum(m: BlockedMap)
    requires
        m.dom().finite(),
    ensures
        reason_count(m, BlockReason::LowScore) + reason_count(m, BlockReason::FailedHandshake)
            + reason_count(m, BlockReason::OutgoingConnectionError) + reason_count(
            m,
            BlockReason::IncomingConnectionError,
        ) + reason_count(m, BlockReason::Other) == m.dom().len(),
{
    let a = peers_with_reason(m, BlockReason::LowScore);
    let b = peers_with_reason(m, BlockReason::FailedHandshake);
    let c = peers_with_reason(m, BlockReason::OutgoingConnectionError);
    let d = peers_with_reason(m, BlockReason::IncomingConnectionError);
    let e = peers_with_reason(m, BlockReason::Other);
    m.dom().lemma_len_filter(|k: Seq<u8>| m[k].reason == BlockReason::LowScore);
    m.dom().lemma_len_filter(|k: Seq<u8>| m[k].reason == BlockReason::FailedHandshake);
    m.dom().lemma_len_filter(|k: Seq<u8>| m[k].reason == BlockReason::OutgoingConnectionError);
    m.dom().lemma_len_filter(|k: Seq<u8>| m[k].reason == BlockReason::IncomingConnectionError);
    m.dom().lemma_len_filter(|k: Seq<u8>| m[k].reason == BlockReason::Other);
    assert(a.disjoint(b));
    vstd::set_lib::lemma_set_disjoint_lens(a, b);
    assert((a + b).disjoint(c));
    vstd::set_lib::lemma_set_disjoint_lens(a + b, c);
    assert((a + b + c).disjoint(d));
    vstd::set_lib::lemma_set_disjoint_lens(a + b + c, d);
    assert((a + b + c + d).disjoint(e));
    vstd::set_lib::lemma_set_disjoint_lens(a + b + c + d, e);
    assert(a + b + c + d + e =~= m.dom());
}

/// Blocking a new peer adds one to the count of its own reason and leaves
/// the counts of the other reasons as they were.
pub proof fn lemma_block_counts_by_own_reason(m: BlockedMap, peer: Seq<u8>, info: BlockedPeerInfo, reason: BlockReason)
    requires
        m.dom().finite(),
        !m.contains_key(peer),
    ensures
        reason_count(after_block(m, peer, info), reason) == reason_count(m, reason) + if reason == info.reason {
            1int
        } else {
            0
        },
{
    let after = after_block(m, peer, info);
    m.dom().lemma_len_filter(|k: Seq<u8>| m[k].reason == reason);
    if reason == info.reason {
        assert(peers_with_reason(after, reason) =~= peers_with_reason(m, reason).insert(peer));
    } else {
        assert(peers_with_reason(after, reason) =~= peers_with_reason(m, reason));
    }
}

/// Unblocking a blocked peer takes one from the count of its own reason and
/// leaves the counts of the other reasons as they were.
pub proof fn lemma_unblock_counts_by_own_reason(m: BlockedMap, peer: Seq<u8>, reason: BlockReason)
    requires
        m.dom().finite(),
        m.contains_key(peer),
    ensures
        reason_count(after_unblock(m, peer), reason) == reason_count(m, reason) - if reason == m[peer].reason {
            1int
        } else {
            0
        },
{
    let after = after_unblock(m, peer);
    m.dom().lemma_len_filter(|k: Seq<u8>| m[k].reason == reason);
    if reason == m[peer].reason {
        assert(peers_with_reason(after, reason) =~= peers_with_reason(m, reason).remove(peer));
    } else {
        assert(peers_with_reason(after, reason) =~= peers_with_reason(m, reason));
    }
}

/// A newly blocked peer is recorded with exactly the time and reason of its
/// block, whatever other peers are blocked, and the records of the others
/// stay as they were.
pub proof fn lemma_new_block_recorded_as_given(m: BlockedMap, peer: Seq<u8>, info: BlockedPeerInfo)
    requires
        !m.contains_key(peer),
    ensures
        after_block(m, peer, info).contains_key(peer),
        after_block(m, peer, info)[peer] == info,
        forall|other: Seq<u8>|
            other != peer ==> (#[trigger] after_block(m, peer, info).contains_key(other) == m.contains_key(other)
                && (m.contains_key(other) ==> after_block(m, peer, info)[other] == m[other])),
{
}

/// Whether an expiry check lifts a peer depends on that peer's own record,
/// the time of the check and the retention period alone: the same record is
/// lifted or kept alike whatever other peers are blocked.
pub proof fn lemma_expiry_depends_on_own_record(
    m1: BlockedMap,
    m2: BlockedMap,
    peer: Seq<u8>,
    now: u128,
    retain: int,
)
    requires
        m1.contains_key(peer),
        m2.contains_key(peer),
        m1[peer] == m2[peer],
    ensures
        after_expiry(m1, now, retain).contains_key(peer) == after_expiry(m2, now, retain).contains_key(peer),
        after_expiry(m1, now, retain).contains_key(peer) <==> elapsed_between(now, m1[peer].blocked_at) < retain,
{
}

/// Blocking a new peer adds one to the number of blocked peers, and
/// unblocking a blocked peer takes one away.
pub proof fn lemma_block_unblock_counts(m: BlockedMap, peer: Seq<u8>, info: BlockedPeerInfo)
    requires
        m.dom().finite(),
    ensures
        !m.contains_key(peer) ==> after_block(m, peer, info).dom().len() == m.dom().len() + 1,
        m.contains_key(peer) ==> after_block(m, peer, info).dom().len() == m.dom().len(),
        m.contains_key(peer) ==> after_unblock(m, peer).dom().len() == m.dom().len() - 1,
        !m.contains_key(peer) ==> after_unblock(m, peer).dom().len() == m.dom().len(),
{
    if !m.contains_key(peer) {
        assert(after_unblock(m, peer).dom() =~= m.dom());
    }
}

/// Whether `event` newly blocks `peer` (a block that returns true).
pub open spec fn newly_blocks(m: BlockedMap, event: BlockingEvent, peer: Seq<u8>) -> bool {
    match event {
        BlockingEvent::Block(p, _) => p == peer && !m.contains_key(peer),
        _ => false,
    }
}

/// Whether `event` lifts the block of `peer`: an unblock that returns true, or
/// an expiry check that finds the peer's block expired.
pub open spec fn lifts(m: BlockedMap, event: BlockingEvent, peer: Seq<u8>, retain: int) -> bool {
    match event {
        BlockingEvent::Unblock(p) => p == peer && m.contains_key(peer),
        BlockingEvent::Expire(now) => m.contains_key(peer) && block_expired(m[peer], now, retain),
        _ => false,
    }
}

/// The blocked peers, over a whole history starting from a new manager: a
/// peer is blocked exactly when some block of it returned true and no unblock
/// or expiry check has lifted that block since.
pub proof fn lemma_blocked_peers_history(events: Seq<BlockingEvent>, retain: int, peer: Seq<u8>)
    ensures
        replay(BlockedMap::empty(), events, retain).contains_key(peer) <==> exists|i: int|
            #![trigger events[i]]
            0 <= i < events.len() && newly_blocks(replay(BlockedMap::empty(), events.take(i), retain), events[i], peer)
                && forall|j: int|
                #![trigger events[j]]
                i < j < events.len() ==> !lifts(replay(BlockedMap::empty(), events.take(j), retain), events[j], peer, retain),
    decreases events.len(),
{
    let e = BlockedMap::empty();
    let n = events.len() as int;
    if n == 0 {
    } else {
        let prior = events.drop_last();
        lemma_blocked_peers_history(prior, retain, peer);
        let pre = replay(e, prior, retain);
        let last = events[n - 1];
        assert(events.take(n - 1) == prior);
        assert(replay(e, events, retain) == after_event(pre, last, retain));
        assert forall|j: int| 0 <= j < n implies #[trigger] events.take(j) == prior.take(j) && events[j] == if j < n - 1 {
            prior[j]
        } else {
            last
        } by {
            assert(events.take(j) =~= prior.take(j));
        }
        let post = replay(e, events, retain);
        if newly_blocks(pre, last, peer) {
            assert(post.contains_key(peer));
            assert(events.take(n - 1) == prior);
        } else if lifts(pre, last, peer, retain) {
            assert(!post.contains_key(peer));
            assert forall|i: int|
                0 <= i < n && newly_blocks(replay(e, events.take(i), retain), #[trigger] events[i], peer) implies exists|j: int|
                #![trigger events[j]]
                i < j < n && lifts(replay(e, events.take(j), retain), events[j], peer, retain) by {
                if i < n - 1 {
                    assert(events.take(n - 1) == prior);
                    assert(lifts(replay(e, events.take(n - 1), retain), events[n - 1], peer, retain));
                }
            }
        } else {
            assert(post.contains_key(peer) == pre.contains_key(peer));
            if pre.contains_key(peer) {
                let i = choose|i: int|
                    #![trigger prior[i]]
                    0 <= i < prior.len() && newly_blocks(replay(e, prior.take(i), retain), prior[i], peer)
                        && forall|j: int|
                        #![trigger prior[j]]
                        i < j < prior.len() ==> !lifts(replay(e, prior.take(j), retain), prior[j], peer, retain);
                assert(events.take(i) == prior.take(i));
                assert(events[i] == prior[i]);
                assert forall|j: int| #![trigger events[j]] i < j < n implies !lifts(replay(e, events.take(j), retain), events[j], peer, retain) by {
                    if j < n - 1 {
                        assert(events.take(j) == prior.take(j));
                        assert(events[j] == prior[j]);
                    } else {
                        assert(events.take(j) == prior);
                    }
                }
            } else {
                assert forall|i: int|
                    0 <= i < n && newly_blocks(replay(e, events.take(i), retain), #[trigger] events[i], peer) implies exists|j: int|
                    #![trigger events[j]]
                    i < j < n && lifts(replay(e, events.take(j), retain), events[j], peer, retain) by {
                    if i == n - 1 {
                        assert(events.take(i) == prior);
                    } else {
                        assert(events.take(i) == prior.take(i));
                        assert(events[i] == prior[i]);
                        let j = choose|j: int|
                            #![trigger prior[j]]
                            i < j < prior.len() && lifts(replay(e, prior.take(j), retain), prior[j], peer, retain);
                        assert(events.take(j) == prior.take(j));
                        assert(events[j] == prior[j]);
                    }
                }
            }
        }
    }
}

/// A manager's blocked peers, over its whole history since it was made: a
/// peer is blocked exactly when some block of it returned true and no unblock
/// or expiry check has lifted that block since.
pub proof fn lemma_manager_blocked_peers(m: &BlockingManager, peer: Seq<u8>)
    requires
        m.wf(),
    ensures
        m@.contains_key(peer) <==> exists|i: int|
            #![trigger m.history()[i]]
            0 <= i < m.history().len() && newly_blocks(
                replay(BlockedMap::empty(), m.history().take(i), retain_score_nanos(m.one_epoch_nanos())),
                m.history()[i],
                peer,
            ) && forall|j: int|
                #![trigger m.history()[j]]
                i < j < m.history().len() ==> !lifts(
                    replay(BlockedMap::empty(), m.history().take(j), retain_score_nanos(m.one_epoch_nanos())),
                    m.history()[j],
                    peer,
                    retain_score_nanos(m.one_epoch_nanos()),
                ),
{
    m.lemma_state_is_replay_of_history();
    lemma_blocked_peers_history(m.history(), retain_score_nanos(m.one_epoch_nanos()), peer);
}

/// The peers that `events` newly block, in order, starting from the blocked
/// peers `m`.
pub open spec fn newly_blocked_peers(m: BlockedMap, events: Seq<BlockingEvent>, retain: int) -> Seq<Seq<u8>>
    decreases events.len(),
{
    if events.len() == 0 {
        Seq::empty()
    } else {
        let before = newly_blocked_peers(m, events.drop_last(), retain);
        match events.last() {
            BlockingEvent::Block(p, _) => if replay(m, events.drop_last(), retain).contains_key(p) {
                before
            } else {
                before.push(p)
            },
            _ => before,
        }
    }
}

/// Replaying two histories one after the other is replaying them joined.
pub proof fn lemma_replay_append(m: BlockedMap, first: Seq<BlockingEvent>, second: Seq<BlockingEvent>, retain: int)
    ensures
        replay(m, first + second, retain) == replay(replay(m, first, retain), second, retain),
    decreases second.len(),
{
    if second.len() == 0 {
        assert(first + second =~= first);
    } else {
        lemma_replay_append(m, first, second.drop_last(), retain);
        assert((first + second).drop_last() =~= first + second.drop_last());
        assert((first + second).last() == second.last());
    }
}

/// Without polls in between, the close-request queue grows by the newly
/// blocked peers, in the order they were blocked.
proof fn lemma_queue_after_blocks(history: Seq<BlockingEvent>, events: Seq<BlockingEvent>, retain: int)
    requires
        forall|j: int| 0 <= j < events.len() ==> !(#[trigger] events[j] is Polled),
    ensures
        replay_queue(history + events, retain) == replay_queue(history, retain) + newly_blocked_peers(
            replay(BlockedMap::empty(), history, retain),
            events,
            retain,
        ),
    decreases events.len(),
{
    let start = replay(BlockedMap::empty(), history, retain);
    if events.len() == 0 {
        assert(history + events =~= history);
        assert(replay_queue(history, retain) + Seq::<Seq<u8>>::empty() =~= replay_queue(history, retain));
    } else {
        let prior = events.drop_last();
        assert forall|j: int| 0 <= j < prior.len() implies !(#[trigger] prior[j] is Polled) by {
            assert(prior[j] == events[j]);
        }
        lemma_queue_after_blocks(history, prior, retain);
        lemma_replay_append(BlockedMap::empty(), history, prior, retain);
        assert((history + events).drop_last() =~= history + prior);
        assert((history + events).last() == events.last());
        let q = replay_queue(history, retain);
        let ps = newly_blocked_peers(start, prior, retain);
        assert(!(events[events.len() - 1] is Polled));
        match events.last() {
            BlockingEvent::Block(p, _) => {
                assert((q + ps).push(p) =~= q + ps.push(p));
            },
            _ => {},
        }
    }
}

/// Polls that each find a queued request take the requests off in order and
/// leave the blocked peers as they were.
proof fn lemma_queue_after_polls(history: Seq<BlockingEvent>, polls: Seq<BlockingEvent>, retain: int)
    requires
        forall|j: int| 0 <= j < polls.len() ==> #[trigger] polls[j] is Polled,
        polls.len() <= replay_queue(history, retain).len(),
    ensures
        replay_queue(history + polls, retain) == replay_queue(history, retain).skip(polls.len() as int),
        replay(BlockedMap::empty(), history + polls, retain) == replay(BlockedMap::empty(), history, retain),
    decreases polls.len(),
{
    if polls.len() == 0 {
        assert(history + polls =~= history);
        assert(replay_queue(history, retain).skip(0) =~= replay_queue(history, retain));
    } else {
        let prior = polls.drop_last();
        assert forall|j: int| 0 <= j < prior.len() implies #[trigger] prior[j] is Polled by {
            assert(prior[j] == polls[j]);
        }
        lemma_queue_after_polls(history, prior, retain);
        assert((history + polls).drop_last() =~= history + prior);
        assert((history + polls).last() == polls.last());
        assert(polls[polls.len() - 1] is Polled);
        let q = replay_queue(history, retain);
        assert(q.skip(prior.len() as int).drop_first() =~= q.skip(polls.len() as int));
    }
}

/// Close requests come out in the order the peers were newly blocked. Take a
/// point `start` in a manager's history where no close request was queued (it
/// was just made, or its last poll was `Pending`), then events with no poll up
/// to `polls_from`, then only polls, no more of them than peers were newly
/// blocked in between. The queue then holds the newly blocked peers, in order,
/// less the ones those polls handed out: the next poll hands out the next of
/// them (`poll`'s contract), and once all are handed out the next poll is
/// `Pending`.
pub proof fn lemma_manager_close_requests_in_order(m: &BlockingManager, start: int, polls_from: int)
    requires
        m.wf(),
        0 <= start <= polls_from <= m.history().len(),
        replay_queue(m.history().take(start), retain_score_nanos(m.one_epoch_nanos())).len() == 0,
        forall|j: int| start <= j < polls_from ==> !(#[trigger] m.history()[j] is Polled),
        forall|j: int| polls_from <= j < m.history().len() ==> #[trigger] m.history()[j] is Polled,
        m.history().len() - polls_from <= newly_blocked_peers(
            replay(BlockedMap::empty(), m.history().take(start), retain_score_nanos(m.one_epoch_nanos())),
            m.history().subrange(start, polls_from),
            retain_score_nanos(m.one_epoch_nanos()),
        ).len(),
    ensures
        m.pending_closes() == newly_blocked_peers(
            replay(BlockedMap::empty(), m.history().take(start), retain_score_nanos(m.one_epoch_nanos())),
            m.history().subrange(start, polls_from),
            retain_score_nanos(m.one_epoch_nanos()),
        ).skip(m.history().len() - polls_from),
{
    let retain = retain_score_nanos(m.one_epoch_nanos());
    let h = m.history();
    let before = h.take(start);
    let blocks = h.subrange(start, polls_from);
    let polls = h.subrange(polls_from, h.len() as int);
    m.lemma_state_is_replay_of_history();
    assert forall|j: int| 0 <= j < blocks.len() implies !(#[trigger] blocks[j] is Polled) by {
        assert(blocks[j] == h[start + j]);
    }
    assert forall|j: int| 0 <= j < polls.len() implies #[trigger] polls[j] is Polled by {
        assert(polls[j] == h[polls_from + j]);
    }
    lemma_queue_after_blocks(before, blocks, retain);
    let ps = newly_blocked_peers(replay(BlockedMap::empty(), before, retain), blocks, retain);
    assert(replay_queue(before, retain) + ps =~= ps);
    lemma_queue_after_polls(before + blocks, polls, retain);
    assert(before + blocks + polls =~= h);
}

} // verus!
