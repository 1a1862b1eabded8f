use vstd::prelude::*;

use core::cmp::Ordering;

use crate::types::message::Message;
use crate::types::topology::{BroadcastTopology, Topology};

verus! {

/// The state one node keeps about the whole cluster.
#[derive(Debug)]
pub struct NodeInfo {
    /// The node id of this node.
    pub node_id: String,
    /// All node ids of client nodes in the network.
    pub client_nodes: Vec<String>,
    /// All node ids of server nodes in the network.
    pub server_nodes: Vec<String>,
    /// All node ids in the network, servers and clients.
    pub node_ids: Vec<String>,
    /// The raw adjacency map supplied by the cluster operator.
    pub topology: Topology,
    /// The derived forwarding map: keyed by the source of an incoming
    /// broadcast, it lists the neighbours the broadcast is forwarded to.
    pub broadcast_topology: BroadcastTopology,
    /// The number of this node, parsed from its id.
    pub node_number: usize,
    /// Internal counter reserved for stamping outbound envelopes.
    pub msg_number: usize,
    /// Per-peer connection state, keyed by server node id.
    pub conn_info: Vec<(String, NodeConnectionInfo)>,
}

/// What one node knows about its traffic with one server peer.
#[derive(Debug)]
pub struct NodeConnectionInfo {
    /// The last outbound sequence number handed to an envelope sent to this
    /// peer; the next envelope that wants an acknowledgement gets the
    /// successor.
    pub out_msg_id: usize,
    /// How much of the peer's outbound sequence has been seen here.
    pub in_msg_id: MessageSyncStatus,
    /// Envelopes sent to this peer that carry a sequence number and have not
    /// been acknowledged yet, in the order they were sent.
    pub un_ack_messages: Vec<Message>,
}

/// The inbound side of a peer connection: either every sequence number up
/// to `last_msg_id` has been seen, or some below it are still missing.
#[derive(Debug)]
pub enum MessageSyncStatus {
    Synced { last_msg_id: usize },
    NotSynced { last_msg_id: usize, missing_msg_ids: Vec<usize> },
}

/// What handling one inbound sequence number decided.
#[derive(Debug, PartialEq, Eq, Clone, Copy)]
pub enum ReceiveOutcome {
    /// The number had already been seen: the envelope is a duplicate.
    Duplicate,
    /// The number was the expected next one, or filled a known gap.
    Accepted,
    /// The number jumped ahead: the skipped numbers are now missing and the
    /// peer should be asked to replay.
    GapDetected,
}

impl MessageSyncStatus {
    /// The highest sequence number seen from the peer.
    pub open spec fn spec_last(&self) -> usize {
        match self {
            MessageSyncStatus::Synced { last_msg_id } => *last_msg_id,
            MessageSyncStatus::NotSynced { last_msg_id, .. } => *last_msg_id,
        }
    }

    /// The sequence numbers below `spec_last` that have not been seen.
    pub open spec fn spec_missing(&self) -> Seq<usize> {
        match self {
            MessageSyncStatus::Synced { .. } => Seq::empty(),
            MessageSyncStatus::NotSynced { missing_msg_ids, .. } => missing_msg_ids@,
        }
    }

    /// Well-formedness: a not-synced status has at least one missing number,
    /// the missing numbers are pairwise distinct, and each lies strictly
    /// between zero and the last seen number.
    pub open spec fn wf(&self) -> bool {
        match self {
            MessageSyncStatus::Synced { .. } => true,
            MessageSyncStatus::NotSynced { last_msg_id, missing_msg_ids } => {
                &&& missing_msg_ids@.len() > 0
                &&& forall|i: int, j: int|
                    0 <= i < j < missing_msg_ids@.len() ==> missing_msg_ids@[i]
                        != missing_msg_ids@[j]
                &&& forall|i: int|
                    0 <= i < missing_msg_ids@.len() ==> 0 < #[trigger] missing_msg_ids@[i]
                        < *last_msg_id
            },
        }
    }

    /// True when an envelope carrying sequence number `k` has been seen:
    /// `k` is no higher than the last seen number and is not missing.
    pub open spec fn has_received(&self, k: usize) -> bool {
        k <= self.spec_last() && !self.spec_missing().contains(k)
    }

    /// Classify an inbound sequence number: `Less` when it is at or below
    /// the last seen number (a duplicate or a gap filler), `Equal` when it
    /// is exactly the next expected number, `Greater` when it jumps ahead.
    pub fn is_next_msg_id(&self, msg_id: usize) -> (r: Ordering)
        ensures
            r == Ordering::Less <==> msg_id <= self.spec_last(),
            r == Ordering::Equal <==> msg_id == self.spec_last() + 1,
            r == Ordering::Greater <==> msg_id > self.spec_last() + 1,
    {
        let last = match self {
            MessageSyncStatus::Synced { last_msg_id } => *last_msg_id,
            MessageSyncStatus::NotSynced { last_msg_id, .. } => *last_msg_id,
        };
        if msg_id <= last {
            Ordering::Less
        } else if msg_id - last == 1 {
            Ordering::Equal
        } else {
            Ordering::Greater
        }
    }

    /// The next sequence number expected from the peer.
    pub fn get_next_msg_id(&self) -> (r: usize)
        requires
            self.spec_last() < usize::MAX,
        ensures
            r == self.spec_last() + 1,
    {
        match self {
            MessageSyncStatus::Synced { last_msg_id } => *last_msg_id + 1,
            MessageSyncStatus::NotSynced { last_msg_id, .. } => *last_msg_id + 1,
        }
    }

    /// True when `msg_id` is the last seen number or one of the missing
    /// numbers.
    pub fn valid_message(&self, msg_id: usize) -> (r: bool)
        ensures
            r == (msg_id == self.spec_last() || self.spec_missing().contains(msg_id)),
    {
        match self {
            MessageSyncStatus::Synced { last_msg_id } => *last_msg_id == msg_id,
            MessageSyncStatus::NotSynced { last_msg_id, missing_msg_ids } => {
                if *last_msg_id == msg_id {
                    true
                } else {
                    contains_usize(missing_msg_ids, msg_id)
                }
            },
        }
    }

    /// Whether an envelope carrying `msg_id` has been seen before.
    pub fn has_received_msg(&self, msg_id: usize) -> (r: bool)
        ensures
            r == self.has_received(msg_id),
    {
        match self {
            MessageSyncStatus::Synced { last_msg_id } => msg_id <= *last_msg_id,
            MessageSyncStatus::NotSynced { last_msg_id, missing_msg_ids } => msg_id <= *last_msg_id
                && !contains_usize(missing_msg_ids, msg_id),
        }
    }

    /// True when no sequence number below the last seen one is missing.
    pub fn is_synced(&self) -> (r: bool)
        ensures
            r == (self matches MessageSyncStatus::Synced { .. }),
    {
        matches!(self, MessageSyncStatus::Synced { .. })
    }

    /// Advance the last seen number by one; the set of missing numbers is
    /// untouched.
    pub fn increment_msg_id(&mut self)
        requires
            old(self).spec_last() < usize::MAX,
        ensures
            final(self).spec_last() == old(self).spec_last() + 1,
            final(self).spec_missing() == old(self).spec_missing(),
            (*final(self) matches MessageSyncStatus::Synced { .. }) == (*old(self)
                matches MessageSyncStatus::Synced { .. }),
    {
        match self {
            MessageSyncStatus::Synced { last_msg_id } => {
                *last_msg_id = *last_msg_id + 1;
            },
            MessageSyncStatus::NotSynced { last_msg_id, .. } => {
                *last_msg_id = *last_msg_id + 1;
            },
        }
    }

    /// Record that the peer jumped ahead to `msg_id`: every number strictly
    /// between the old last seen number and `msg_id` becomes missing, and
    /// `msg_id` becomes the last seen number.  A number at or below the last
    /// seen one changes nothing.
    pub fn add_missing_msg_ids(&mut self, msg_id: usize)
        requires
            old(self).wf(),
        ensures
            final(self).wf(),
            msg_id <= old(self).spec_last() ==> *final(self) == *old(self),
            msg_id > old(self).spec_last() ==> {
                &&& final(self).spec_last() == msg_id
                &&& forall|m: usize|
                    #![auto]
                    final(self).spec_missing().contains(m) <==> (old(
                        self,
                    ).spec_missing().contains(m) || old(self).spec_last() < m < msg_id)
            },
            forall|j: usize|
                #![auto]
                final(self).has_received(j) <==> (old(self).has_received(j) || (msg_id > old(
                    self,
                ).spec_last() && j == msg_id)),
    {
        let ghost pre = *self;
        match self {
            MessageSyncStatus::Synced { last_msg_id } => {
                if *last_msg_id < msg_id {
                    let last = *last_msg_id;
                    let mut missing: Vec<usize> = Vec::new();
                    let mut j: usize = last + 1;
                    while j < msg_id
                        invariant
                            last < j <= msg_id,
                            missing@.len() == j - last - 1,
                            forall|i: int| 0 <= i < missing@.len() ==> missing@[i] == last + 1 + i,
                        decreases msg_id - j,
                    {
                        missing.push(j);
                        j = j + 1;
                    }
                    if missing.len() > 0 {
                        *self = MessageSyncStatus::NotSynced {
                            last_msg_id: msg_id,
                            missing_msg_ids: missing,
                        };
                    } else {
                        *self = MessageSyncStatus::Synced { last_msg_id: msg_id };
                    }
                    proof {
                        assert(self.spec_last() == msg_id);
                        assert forall|m: usize| pre.spec_last() < m < msg_id implies self.spec_missing().contains(
                            m,
                        ) by {
                            assert(self.spec_missing()[m - last - 1] == m);
                        }
                        assert forall|m: usize| self.spec_missing().contains(m) implies pre.spec_last()
                            < m < msg_id by {
                            let i = choose|i: int|
                                0 <= i < self.spec_missing().len() && self.spec_missing()[i] == m;
                        }
                        assert(pre.spec_missing() =~= Seq::<usize>::empty());
                        assert(self.wf());
                    }
                }
            },
            MessageSyncStatus::NotSynced { last_msg_id, missing_msg_ids } => {
                if *last_msg_id < msg_id {
                    let last = *last_msg_id;
                    let ghost base = missing_msg_ids@;
                    let mut j: usize = last + 1;
                    while j < msg_id
                        invariant
                            last < j <= msg_id,
                            pre.wf(),
                            pre.spec_last() == last,
                            pre.spec_missing() == base,
                            missing_msg_ids@.len() == base.len() + (j - last - 1),
                            forall|i: int|
                                0 <= i < base.len() ==> missing_msg_ids@[i] == base[i],
                            forall|i: int|
                                base.len() <= i < missing_msg_ids@.len() ==> missing_msg_ids@[i]
                                    == last + 1 + (i - base.len()),
                        decreases msg_id - j,
                    {
                        missing_msg_ids.push(j);
                        j = j + 1;
                    }
                    *last_msg_id = msg_id;
                    proof {
                        let post_missing = missing_msg_ids@;
                        assert forall|m: usize| pre.spec_last() < m < msg_id implies post_missing.contains(
                            m,
                        ) by {
                            assert(post_missing[base.len() + (m - last - 1)] == m);
                        }
                        assert forall|m: usize| pre.spec_missing().contains(m) implies post_missing.contains(
                            m,
                        ) by {
                            let i = choose|i: int|
                                0 <= i < base.len() && base[i] == m;
                            assert(post_missing[i] == m);
                        }
                        assert forall|i: int| 0 <= i < post_missing.len() implies 0 < #[trigger] post_missing[i]
                            < msg_id by {
                            if i < base.len() {
                                assert(0 < pre.spec_missing()[i] < pre.spec_last());
                            }
                        }
                        assert forall|m: usize| post_missing.contains(m) implies (
                        pre.spec_missing().contains(m) || last < m < msg_id) by {
                            let i = choose|i: int|
                                0 <= i < post_missing.len() && post_missing[i] == m;
                            if i < base.len() {
                                assert(base[i] == m);
                            }
                        }
                        assert forall|i: int, k: int|
                            0 <= i < k < post_missing.len() implies post_missing[i]
                            != post_missing[k] by {
                            assert(pre.spec_missing() == base);
                            if i < base.len() && k < base.len() {
                                assert(pre.spec_missing()[i] != pre.spec_missing()[k]);
                            } else if i < base.len() && k >= base.len() {
                                assert(post_missing[i] == base[i]);
                                assert(0 < pre.spec_missing()[i] < pre.spec_last());
                                assert(post_missing[k] == last + 1 + (k - base.len()));
                            }
                        }
                    }
                }
            },
        }
    }
}

/// What `receive_msg_id` guarantees: the relation between the status before
/// a sequence number arrives, the number, the status afterwards and the
/// outcome.
///
/// The last clause is the idempotence core: after the call, exactly the old
/// numbers and the new one count as received, so a redelivery is always
/// classified `Duplicate` and changes nothing.
pub open spec fn receive_post(
    pre: MessageSyncStatus,
    msg_id: usize,
    post: MessageSyncStatus,
    outcome: ReceiveOutcome,
) -> bool {
    &&& (outcome == ReceiveOutcome::Duplicate <==> pre.has_received(msg_id))
    &&& (pre.has_received(msg_id) ==> post == pre)
    &&& (outcome == ReceiveOutcome::GapDetected <==> msg_id > pre.spec_last() + 1)
    &&& (msg_id == pre.spec_last() + 1 ==> {
        &&& post.spec_last() == msg_id
        &&& post.spec_missing() == pre.spec_missing()
        &&& ((post is Synced) == (pre is Synced))
    })
    &&& (msg_id > pre.spec_last() + 1 ==> {
        &&& post.spec_last() == msg_id
        &&& forall|m: usize|
            #![auto]
            post.spec_missing().contains(m) <==> (pre.spec_missing().contains(m)
                || pre.spec_last() < m < msg_id)
    })
    &&& ((msg_id <= pre.spec_last() && pre.spec_missing().contains(msg_id)) ==> {
        &&& post.spec_last() == pre.spec_last()
        &&& forall|m: usize|
            #![auto]
            post.spec_missing().contains(m) <==> (pre.spec_missing().contains(m) && m != msg_id)
        &&& ((post is Synced) <==> pre.spec_missing().len() <= 1)
    })
    &&& (forall|j: usize| #![auto] post.has_received(j) <==> (pre.has_received(j) || j == msg_id))
    &&& post.spec_last() >= pre.spec_last()
    &&& post.wf()
}

impl MessageSyncStatus {
    /// Apply one inbound sequence number, as the dispatch engine's inbound
    /// check prescribes: a number already seen is a duplicate and changes
    /// nothing; the expected next number advances the window; a number that
    /// fills a gap shrinks the missing set, and becoming gap-free flips the
    /// status to synced; a number beyond the expected next one records the
    /// skipped numbers as missing and asks for a replay.
    pub fn receive_msg_id(&mut self, msg_id: usize) -> (r: ReceiveOutcome)
        requires
            old(self).wf(),
        ensures
            receive_post(*old(self), msg_id, *final(self), r),
    {
        let ghost pre = *self;
        let last = match self {
            MessageSyncStatus::Synced { last_msg_id } => *last_msg_id,
            MessageSyncStatus::NotSynced { last_msg_id, .. } => *last_msg_id,
        };
        if msg_id <= last {
            match self {
                MessageSyncStatus::Synced { .. } => ReceiveOutcome::Duplicate,
                MessageSyncStatus::NotSynced { last_msg_id, missing_msg_ids } => {
                    match find_usize(missing_msg_ids, msg_id) {
                        Some(idx) => {
                            let ghost base = missing_msg_ids@;
                            missing_msg_ids.remove(idx);
                            proof {
                                lemma_remove_unique(base, idx as int, missing_msg_ids@, msg_id);
                            }
                            if missing_msg_ids.len() == 0 {
                                *self = MessageSyncStatus::Synced { last_msg_id: last };
                            }
                            ReceiveOutcome::Accepted
                        },
                        None => ReceiveOutcome::Duplicate,
                    }
                },
            }
        } else if msg_id - last == 1 {
            self.increment_msg_id();
            ReceiveOutcome::Accepted
        } else {
            self.add_missing_msg_ids(msg_id);
            ReceiveOutcome::GapDetected
        }
    }
}

/// Removing the only occurrence of `x` from a duplicate-free sequence
/// leaves exactly the other values.
proof fn lemma_remove_unique(base: Seq<usize>, idx: int, post: Seq<usize>, x: usize)
    requires
        0 <= idx < base.len(),
        base[idx] == x,
        forall|i: int, j: int| 0 <= i < j < base.len() ==> base[i] != base[j],
        post == base.remove(idx),
    ensures
        forall|m: usize| #![auto] post.contains(m) <==> (base.contains(m) && m != x),
        forall|i: int, j: int| 0 <= i < j < post.len() ==> post[i] != post[j],
        forall|m: usize| #![auto] post.contains(m) ==> base.contains(m),
{
    assert forall|m: usize| #![auto] post.contains(m) implies (base.contains(m) && m != x) by {
        let j = choose|j: int| 0 <= j < post.len() && post[j] == m;
        if j < idx {
            assert(base[j] == m);
        } else {
            assert(base[j + 1] == m);
        }
    }
    assert forall|m: usize| #![auto] base.contains(m) && m != x implies post.contains(m) by {
        let j = choose|j: int| 0 <= j < base.len() && base[j] == m;
        if j < idx {
            assert(post[j] == m);
        } else {
            assert(post[j - 1] == m);
        }
    }
}

/// The delivery law for a loss-free, duplicate-free run: a peer that starts
/// synced at `base` and then delivers the consecutive sequence numbers
/// `base + 1, base + 2, ...` one by one ends synced, with the last seen
/// number equal to the greatest delivered one.  `sts` are the statuses along
/// the way, `outs` the outcomes.
pub proof fn lemma_in_order_delivery_synced(
    sts: Seq<MessageSyncStatus>,
    outs: Seq<ReceiveOutcome>,
    base: usize,
)
    requires
        sts.len() >= 1,
        outs.len() == sts.len() - 1,
        sts[0] is Synced,
        sts[0].spec_last() == base,
        base + sts.len() - 1 <= usize::MAX,
        forall|i: int|
            #![auto]
            0 <= i < sts.len() - 1 ==> receive_post(
                sts[i],
                (base + i + 1) as usize,
                sts[i + 1],
                outs[i],
            ),
    ensures
        sts.last() is Synced,
        sts.last().spec_last() == base + sts.len() - 1,
    decreases sts.len(),
{
    if sts.len() > 1 {
        assert(receive_post(sts[0], (base + 1) as usize, sts[1], outs[0]));
        let tail = sts.drop_first();
        let touts = outs.drop_first();
        assert forall|i: int|
            #![auto]
            0 <= i < tail.len() - 1 implies receive_post(
            tail[i],
            ((base + 1) + i + 1) as usize,
            tail[i + 1],
            touts[i],
        ) by {
            assert(receive_post(sts[i + 1], (base + i + 2) as usize, sts[i + 2], outs[i + 1]));
        }
        lemma_in_order_delivery_synced(tail, touts, (base + 1) as usize);
        assert(sts.last() == tail.last());
    }
}

/// The index of the first occurrence of `x` in `v`, if any.
pub fn find_usize(v: &Vec<usize>, x: usize) -> (r: Option<usize>)
    ensures
        match r {
            Some(idx) => 0 <= idx < v@.len() && v@[idx as int] == x,
            None => !v@.contains(x),
        },
{
    let mut i: usize = 0;
    while i < v.len()
        invariant
            0 <= i <= v@.len(),
            forall|j: int| 0 <= j < i ==> v@[j] != x,
        decreases v@.len() - i,
    {
        if v[i] == x {
            return Some(i);
        }
        i = i + 1;
    }
    None
}

/// True when `v` holds `x`.
pub fn contains_usize(v: &Vec<usize>, x: usize) -> (r: bool)
    ensures
        r == v@.contains(x),
{
    let mut i: usize = 0;
    while i < v.len()
        invariant
            0 <= i <= v@.len(),
            forall|j: int| 0 <= j < i ==> v@[j] != x,
        decreases v@.len() - i,
    {
        if v[i] == x {
            return true;
        }
        i = i + 1;
    }
    false
}

} // verus!

