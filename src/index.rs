use vstd::prelude::*;

verus! {

/// Tags are limited to fewer bytes than this.
pub const MAX_TAG_LENGTH: usize = 32;

/// Titles, websites, images and descriptions are limited to this many bytes.
pub const MAX_STRING_LENGTH: usize = 200;

/// Governance root: an administrator, the fee for a new tree, and the voting token.
pub struct Forest {
    pub id: u64,
    pub admin: u64,
    pub tree_creation_fee: u64,
    pub vote_mint: u64,
}

/// A tagged hierarchy of nodes under one forest.
pub struct Tree {
    pub forest: usize,
    pub root_node: usize,
    pub tag: Vec<u8>,
}

/// A vertex of a tree. `parent` is `None` for the root of the tree.
/// `tag` is the tag this node introduces; its full tag set is derived from
/// the parent chain. `children` are the attached children of this node.
pub struct Node {
    pub tree: usize,
    pub parent: Option<usize>,
    pub tag: Vec<u8>,
    pub attached_note: Option<usize>,
    pub stake: u64,
    pub children: Vec<usize>,
}

/// A unit of indexed content, with the total stake on it and the node it occupies.
pub struct Note {
    pub id: u64,
    pub forest: usize,
    pub title: String,
    pub website: String,
    pub image: String,
    pub description: String,
    pub stake: u64,
    pub location: Option<usize>,
}

/// The stake of one staker on one note. A closed account holds no stake.
#[derive(Clone, Copy, Debug, PartialEq, Eq, Structural)]
pub struct StakeAccount {
    pub note: usize,
    pub staker: u64,
    pub stake: u64,
    pub open: bool,
}

/// An escrowed reward for the stakers of whatever note holds `node`.
/// `claimed` lists the stakers that have taken their share.
pub struct Bribe {
    pub node: usize,
    pub briber: u64,
    pub amount: u64,
    pub claimed: Vec<u64>,
}

/// A token balance that a transfer moves tokens between.
#[derive(Clone, Copy, Debug, PartialEq, Eq, Structural)]
pub enum Account {
    /// The voting-token wallet of a user.
    Wallet(u64),
    /// The custody of staked tokens of a forest.
    Custody(usize),
    /// The escrow of a bribe.
    Escrow(usize),
}

/// Who authorises a transfer.
#[derive(Clone, Copy, Debug, PartialEq, Eq, Structural)]
pub enum Authority {
    /// The user who signed the request.
    Signer(u64),
    /// The protocol authority derived from a forest.
    Forest(usize),
}

/// A token transfer that a handler asks the token ledger to perform as part
/// of the same request.
#[derive(Clone, Copy, Debug, PartialEq, Eq, Structural)]
pub struct Transfer {
    pub from: Account,
    pub to: Account,
    pub amount: u64,
    pub authority: Authority,
}

/// The record store: every record, addressed by its position. Every handler
/// asks for `wf` and keeps it; `Index::new` establishes it, so a store that
/// changes only through the handlers always satisfies it.
pub struct Index {
    pub capacity: usize,
    pub forests: Vec<Forest>,
    pub trees: Vec<Tree>,
    pub nodes: Vec<Node>,
    pub notes: Vec<Note>,
    pub stakes: Vec<StakeAccount>,
    pub bribes: Vec<Bribe>,
}

/// Sum of the stakes of the accounts in `s` that are on note `t`.
pub open spec fn stake_sum(s: Seq<StakeAccount>, t: int) -> int
    decreases s.len(),
{
    if s.len() == 0 {
        0
    } else {
        stake_sum(s.drop_last(), t) + if s.last().note == t {
            s.last().stake as int
        } else {
            0
        }
    }
}

impl Index {
    pub open spec fn node_ok(self, n: int) -> bool {
        0 <= n < self.nodes@.len()
    }

    pub open spec fn note_ok(self, t: int) -> bool {
        0 <= t < self.notes@.len()
    }

    pub open spec fn forest_of_node(self, n: int) -> int {
        self.trees@[self.nodes@[n].tree as int].forest as int
    }

    /// The tags of the attached children of `n`.
    pub open spec fn child_tag(self, n: int, k: int) -> Seq<u8> {
        self.nodes@[self.nodes@[n].children@[k] as int].tag@
    }

    pub open spec fn wf_trees(self) -> bool {
        forall|i: int|
            0 <= i < self.trees@.len() ==> {
                &&& #[trigger] self.trees@[i].forest < self.forests@.len()
                &&& self.node_ok(self.trees@[i].root_node as int)
                &&& self.nodes@[self.trees@[i].root_node as int].tree == i
                &&& self.nodes@[self.trees@[i].root_node as int].parent is None
            }
    }

    pub open spec fn wf_nodes(self) -> bool {
        &&& forall|n: int|
            #![trigger self.nodes@[n]]
            0 <= n < self.nodes@.len() ==> {
                &&& self.nodes@[n].tree < self.trees@.len()
                &&& match self.nodes@[n].parent {
                    Some(p) => p < n && self.nodes@[p as int].tree == self.nodes@[n].tree,
                    None => self.trees@[self.nodes@[n].tree as int].root_node == n,
                }
            }
        &&& forall|a: int, b: int|
            0 <= a < self.nodes@.len() && 0 <= b < self.nodes@.len() && a != b
                && (#[trigger] self.nodes@[a]).parent is Some && self.nodes@[a].parent == (
            #[trigger] self.nodes@[b]).parent ==> self.nodes@[a].tag@ != self.nodes@[b].tag@
    }

    pub open spec fn wf_children(self) -> bool {
        forall|n: int|
            #![trigger self.nodes@[n]]
            0 <= n < self.nodes@.len() ==> {
                &&& self.nodes@[n].children@.len() <= self.capacity
                &&& forall|k: int|
                    0 <= k < self.nodes@[n].children@.len() ==> {
                        &&& self.node_ok(#[trigger] self.nodes@[n].children@[k] as int)
                        &&& self.nodes@[self.nodes@[n].children@[k] as int].parent == Some(
                            n as usize,
                        )
                    }
                &&& forall|k1: int, k2: int|
                    0 <= k1 < self.nodes@[n].children@.len() && 0 <= k2
                        < self.nodes@[n].children@.len() && k1 != k2
                        ==> #[trigger] self.nodes@[n].children@[k1]
                        != #[trigger] self.nodes@[n].children@[k2]
            }
    }

    pub open spec fn wf_attachment(self) -> bool {
        &&& forall|n: int|
            #![trigger self.nodes@[n]]
            0 <= n < self.nodes@.len() ==> match self.nodes@[n].attached_note {
                Some(t) => self.note_ok(t as int) && self.notes@[t as int].location == Some(
                    n as usize,
                ) && self.nodes@[n].stake == self.notes@[t as int].stake,
                None => self.nodes@[n].stake == 0,
            }
        &&& forall|t: int|
            #![trigger self.notes@[t]]
            0 <= t < self.notes@.len() ==> {
                &&& self.notes@[t].forest < self.forests@.len()
                &&& match self.notes@[t].location {
                    Some(n) => self.node_ok(n as int) && self.nodes@[n as int].attached_note
                        == Some(t as usize),
                    None => true,
                }
            }
    }

    pub open spec fn wf_stakes(self) -> bool {
        &&& forall|s: int|
            #![trigger self.stakes@[s]]
            0 <= s < self.stakes@.len() ==> self.note_ok(self.stakes@[s].note as int) && (
            !self.stakes@[s].open ==> self.stakes@[s].stake == 0)
        &&& forall|t: int|
            #![trigger self.notes@[t]]
            0 <= t < self.notes@.len() ==> self.notes@[t].stake == stake_sum(self.stakes@, t)
        &&& forall|a: int, b: int|
            0 <= a < self.stakes@.len() && 0 <= b < self.stakes@.len() && a != b && (
            #[trigger] self.stakes@[a]).note == (#[trigger] self.stakes@[b]).note
                ==> self.stakes@[a].staker != self.stakes@[b].staker
    }

    pub open spec fn wf_bribes(self) -> bool {
        &&& forall|b: int|
            #![trigger self.bribes@[b]]
            0 <= b < self.bribes@.len() ==> self.node_ok(self.bribes@[b].node as int)
        &&& forall|a: int, b: int|
            0 <= a < self.bribes@.len() && 0 <= b < self.bribes@.len() && a != b && (
            #[trigger] self.bribes@[a]).node == (#[trigger] self.bribes@[b]).node
                ==> self.bribes@[a].briber != self.bribes@[b].briber
    }

    /// No node introduces a tag that its parent's tag set already holds.
    pub open spec fn wf_tags(self) -> bool {
        forall|n: int|
            0 <= n < self.nodes@.len() && (#[trigger] self.nodes@[n]).parent is Some ==> !self.tag_set(
                self.nodes@[n].parent->Some_0 as int,
            ).contains(self.nodes@[n].tag@)
    }

    /// No node introduces a tag that is excluded below its parent.
    pub open spec fn wf_excl(self) -> bool {
        forall|n: int|
            0 <= n < self.nodes@.len() && (#[trigger] self.nodes@[n]).parent is Some
                ==> !self.not_tag_set(self.nodes@[n].parent->Some_0 as int).contains(
                self.nodes@[n].tag@,
            )
    }

    /// Each forest, tree and note has its own identity.
    pub open spec fn wf_ids(self) -> bool {
        &&& forall|a: int, b: int|
            0 <= a < self.forests@.len() && 0 <= b < self.forests@.len() && a != b
                ==> (#[trigger] self.forests@[a]).id != (#[trigger] self.forests@[b]).id
        &&& forall|a: int, b: int|
            0 <= a < self.trees@.len() && 0 <= b < self.trees@.len() && a != b && (
            #[trigger] self.trees@[a]).forest == (#[trigger] self.trees@[b]).forest
                ==> self.trees@[a].tag@ != self.trees@[b].tag@
        &&& forall|a: int, b: int|
            0 <= a < self.notes@.len() && 0 <= b < self.notes@.len() && a != b && (
            #[trigger] self.notes@[a]).forest == (#[trigger] self.notes@[b]).forest
                ==> self.notes@[a].id != self.notes@[b].id
    }

    /// The invariant that every handler preserves.
    pub open spec fn wf(self) -> bool {
        &&& self.wf_ids()
        &&& self.wf_tags()
        &&& self.wf_excl()
        &&& self.wf_trees()
        &&& self.wf_nodes()
        &&& self.wf_children()
        &&& self.wf_attachment()
        &&& self.wf_stakes()
        &&& self.wf_bribes()
    }

    /// An empty store whose nodes take at most `capacity` attached children.
    pub fn new(capacity: usize) -> (r: Index)
        ensures
            r.wf(),
            r.capacity == capacity,
            r.forests@.len() == 0,
            r.trees@.len() == 0,
            r.nodes@.len() == 0,
            r.notes@.len() == 0,
            r.stakes@.len() == 0,
            r.bribes@.len() == 0,
    {
        Index {
            capacity,
            forests: Vec::new(),
            trees: Vec::new(),
            nodes: Vec::new(),
            notes: Vec::new(),
            stakes: Vec::new(),
            bribes: Vec::new(),
        }
    }
}

/// Byte-wise equality of two tags.
pub fn tags_equal(a: &Vec<u8>, b: &Vec<u8>) -> (r: bool)
    ensures
        r == (a@ == b@),
{
    if a.len() != b.len() {
        return false;
    }
    let mut i: usize = 0;
    while i < a.len()
        invariant
            a@.len() == b@.len(),
            0 <= i <= a@.len(),
            forall|j: int| 0 <= j < i ==> a@[j] == b@[j],
        decreases a@.len() - i,
    {
        if a[i] != b[i] {
            return false;
        }
        i = i + 1;
    }
    assert(a@ =~= b@);
    true
}

} // verus!

verus! {

impl Index {
    /// No account is on a note that does not exist yet.
    pub proof fn lemma_stake_sum_zero(self, t: int)
        requires
            self.wf(),
            t >= self.notes@.len(),
        ensures
            stake_sum(self.stakes@, t) == 0,
    {
        lemma_stake_sum_absent(self.stakes@, t);
    }
}

/// A note on which no account of `s` stands has a sum of zero.
pub proof fn lemma_stake_sum_absent(s: Seq<StakeAccount>, t: int)
    requires
        forall|i: int| 0 <= i < s.len() ==> #[trigger] s[i].note != t,
    ensures
        stake_sum(s, t) == 0,
    decreases s.len(),
{
    if s.len() > 0 {
        assert(forall|i: int| 0 <= i < s.drop_last().len() ==> s.drop_last()[i] == s[i]);
        lemma_stake_sum_absent(s.drop_last(), t);
    }
}

} // verus!
