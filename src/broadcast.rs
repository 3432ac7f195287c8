//! Fan-out of a control request to every member node, and the per-node
//! reply map that comes back.
use vstd::prelude::*;
use crate::dht::{DhtEntry, is_member};

verus! {

/// Why a member contributed no task id.
#[derive(Clone, Copy, Debug, PartialEq, Eq, Structural)]
pub enum PeerError {
    /// The node could not be reached.
    Unreachable,
    /// The node answered with an error.
    Rejected,
}

/// One node's entry in the reply map: the id of the task it started, or
/// why it did not.
#[derive(Clone, Copy, Debug)]
pub struct NodeReply {
    pub node_id: u16,
    pub result: Result<u64, PeerError>,
}

/// Pairs each member with the outcome of the request sent to it.
pub fn collect_replies(members: &Vec<u16>, outcomes: &Vec<Result<u64, PeerError>>) -> (r: Vec<NodeReply>)
    requires
        members@.len() == outcomes@.len(),
    ensures
        r@.len() == members@.len(),
        forall|i: int| 0 <= i < r@.len() ==> r@[i].node_id == members@[i] && r@[i].result == outcomes@[i],
{
    let mut r: Vec<NodeReply> = Vec::new();
    let mut i: usize = 0;
    while i < members.len()
        invariant
            members@.len() == outcomes@.len(),
            i <= members@.len(),
            r@.len() == i,
            forall|j: int| 0 <= j < i ==> r@[j].node_id == members@[j] && r@[j].result == outcomes@[j],
        decreases members@.len() - i,
    {
        r.push(NodeReply { node_id: members[i], result: outcomes[i] });
        i += 1;
    }
    r
}

/// The reply map has exactly one entry per member node of the snapshot,
/// whether or not that node failed.
pub proof fn lemma_broadcast_fan_out(entries: Seq<DhtEntry>, members: Seq<u16>, replies: Seq<NodeReply>)
    requires
        members.no_duplicates(),
        forall|id: u16| members.contains(id) <==> is_member(entries, id),
        replies.len() == members.len(),
        forall|i: int| 0 <= i < replies.len() ==> replies[i].node_id == members[i],
    ensures
        forall|id: u16| (exists|i: int| 0 <= i < replies.len() && #[trigger] replies[i].node_id == id) <==> is_member(entries, id),
        forall|i: int, j: int| 0 <= i < replies.len() && 0 <= j < replies.len() && i != j ==> replies[i].node_id != replies[j].node_id,
{
    assert forall|id: u16| (exists|i: int| 0 <= i < replies.len() && #[trigger] replies[i].node_id == id) <==> is_member(entries, id) by {
        if is_member(entries, id) {
            assert(members.contains(id));
            let k = choose|k: int| 0 <= k < members.len() && members[k] == id;
            assert(replies[k].node_id == id);
        }
        if exists|i: int| 0 <= i < replies.len() && #[trigger] replies[i].node_id == id {
            let k = choose|k: int| 0 <= k < replies.len() && #[trigger] replies[k].node_id == id;
            assert(members[k] == id);
            assert(members.contains(id));
        }
    }
    assert forall|i: int, j: int| 0 <= i < replies.len() && 0 <= j < replies.len() && i != j implies replies[i].node_id != replies[j].node_id by {
        assert(members[i] != members[j]);
    }
}

} // verus!
