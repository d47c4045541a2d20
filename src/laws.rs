use vstd::prelude::*;
use crate::index::{Index, StakeAccount, stake_sum};
use crate::notes::same_node_shape;

verus! {

/// A node's tag set is its parent's tag set with the node's own tag added;
/// the parent's tag set did not hold that tag, and it is not excluded below
/// the parent.
pub proof fn lemma_tag_set_extends_parent(idx: Index, n: int)
    requires
        idx.wf(),
        idx.node_ok(n),
        idx.nodes@[n].parent is Some,
    ensures
        idx.tag_set(n) == idx.tag_set(idx.nodes@[n].parent->Some_0 as int).insert(
            idx.nodes@[n].tag@,
        ),
        !idx.tag_set(idx.nodes@[n].parent->Some_0 as int).contains(idx.nodes@[n].tag@),
        !idx.not_tag_set(idx.nodes@[n].parent->Some_0 as int).contains(idx.nodes@[n].tag@),
{
    assert(idx.nodes@[n].parent->Some_0 < n);
}

/// A note's stake is the sum of the stakes of the accounts on it.
pub proof fn lemma_note_stake_is_sum(idx: Index, t: int)
    requires
        idx.wf(),
        idx.note_ok(t),
    ensures
        idx.notes@[t].stake == stake_sum(idx.stakes@, t),
{
}

/// A node carrying a note has that note's stake; an empty node has none.
pub proof fn lemma_node_stake_is_note_stake(idx: Index, n: int)
    requires
        idx.wf(),
        idx.node_ok(n),
    ensures
        match idx.nodes@[n].attached_note {
            Some(t) => idx.nodes@[n].stake == idx.notes@[t as int].stake,
            None => idx.nodes@[n].stake == 0,
        },
{
}

/// Moving a note from `a` to `b` and back restores every node and every note.
pub proof fn lemma_move_note_round_trip(s0: Index, s1: Index, s2: Index, a: usize, b: usize, t: usize)
    requires
        s0.wf(),
        s0.node_ok(a as int),
        s0.node_ok(b as int),
        s0.note_ok(t as int),
        s0.notes@[t as int].location == Some(a),
        s0.nodes@[b as int].attached_note is None,
        s1.note_moved(s0, a as int, b as int, t as int),
        s2.note_moved(s1, b as int, a as int, t as int),
    ensures
        s1.notes@[t as int].location == Some(b),
        s1.nodes@[a as int].attached_note is None,
        s2.nodes@ == s0.nodes@,
        s2.notes@ == s0.notes@,
{
    assert(s0.nodes@[a as int].attached_note == Some(t));
    assert(a != b);
    assert forall|j: int| 0 <= j < s0.nodes@.len() implies s2.nodes@[j] == s0.nodes@[j] by {
        assert(same_node_shape(s2.nodes@[j], s1.nodes@[j]));
        assert(same_node_shape(s1.nodes@[j], s0.nodes@[j]));
        if j == b as int {
            assert(s0.nodes@[j].stake == 0);
        }
    }
    assert(s2.nodes@ =~= s0.nodes@);
    assert(s2.notes@ =~= s0.notes@);
}

/// Staking `k` and then withdrawing `k` on one account restores the account,
/// every note and every node, and the two transfers cancel out: the second
/// moves the same amount back between the same two balances.
pub proof fn lemma_stake_round_trip(s0: Index, s1: Index, s2: Index, s: int, k: int)
    requires
        s0.wf(),
        0 <= s < s0.stakes@.len(),
        s0.stakes@[s].open,
        0 <= k,
        s0.notes@[s0.stakes@[s].note as int].stake + k <= u64::MAX,
        s1.stake_applied(s0, s, k),
        s2.stake_applied(s1, s, -k),
    ensures
        s1.stakes@[s].open,
        k <= s1.stakes@[s].stake,
        s2.stakes@ == s0.stakes@,
        s2.notes@ == s0.notes@,
        s2.nodes@ == s0.nodes@,
        s1.stake_transfer(s, -k).amount == s0.stake_transfer(s, k).amount,
        k > 0 ==> s1.stake_transfer(s, -k).from == s0.stake_transfer(s, k).to,
        k > 0 ==> s1.stake_transfer(s, -k).to == s0.stake_transfer(s, k).from,
{
    let acc = s0.stakes@[s];
    let t = acc.note as int;
    assert(s0.nodes@.len() == s0.nodes.len());
    crate::stake::lemma_stake_le_sum(s0.stakes@, s, t);
    assert(s1.stakes@[s] == StakeAccount { stake: (acc.stake + k) as u64, ..acc });
    assert(s2.stakes@ =~= s0.stakes@);
    assert forall|j: int| 0 <= j < s0.notes@.len() implies s2.notes@[j] == s0.notes@[j] by {
    }
    assert(s2.notes@ =~= s0.notes@);
    assert(s1.notes@[t].location == s0.notes@[t].location);
    assert(s1.notes@[t].forest == s0.notes@[t].forest);
    assert(s1.stakes@[s].note == acc.note);
    if let Some(n) = s0.notes@[t].location {
        assert(same_node_shape(s2.nodes@[n as int], s1.nodes@[n as int]));
        assert(same_node_shape(s1.nodes@[n as int], s0.nodes@[n as int]));
        assert(s2.nodes@[n as int] == s0.nodes@[n as int]);
    }
    assert forall|j: int| 0 <= j < s0.nodes@.len() implies s2.nodes@[j] == s0.nodes@[j] by {
        if !(s0.notes@[t].location matches Some(n) && n as int == j) {
            assert(s0.notes@[t].location != Some(j as usize));
        }
    }
    assert(s2.nodes@ =~= s0.nodes@);
}

/// After `challenger` replaced `incumbent` below `parent`, the incumbent is no
/// longer a child there, so the same replacement a second time is refused.
pub proof fn lemma_replace_node_once(
    s0: Index,
    s1: Index,
    parent: usize,
    incumbent: usize,
    challenger: usize,
)
    requires
        s0.wf(),
        s0.node_ok(parent as int),
        s0.node_ok(incumbent as int),
        s0.node_ok(challenger as int),
        s0.nodes@[challenger as int].stake > s0.nodes@[incumbent as int].stake,
        s1.node_replaced(s0, parent as int, incumbent as int, challenger as int),
    ensures
        !s1.nodes@[parent as int].children@.contains(incumbent),
{
    assert(incumbent != challenger);
    let c0 = s0.nodes@[parent as int].children@;
    let c1 = s1.nodes@[parent as int].children@;
    assert forall|k: int| 0 <= k < c1.len() implies c1[k] != incumbent by {
        assert(c1[k] == if c0[k] == incumbent {
            challenger
        } else {
            c0[k]
        });
    }
}

/// Two successive claims of one bribe are never by the same staker.
pub proof fn lemma_claim_at_most_once(s0: Index, s1: Index, s2: Index, b: int, x: int, y: int)
    requires
        s1.bribe_claimed(s0, b, x),
        s2.bribe_claimed(s1, b, y),
    ensures
        s0.stakes@[x].staker != s1.stakes@[y].staker,
{
    assert(s1.bribes@[b].claimed@.last() == s0.stakes@[x].staker);
}

} // verus!
