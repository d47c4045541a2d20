use vstd::prelude::*;
use crate::errors::DipErrors;
use crate::notes::same_node_shape;
use crate::index::{Account, Authority, Bribe, Index, Transfer};
use crate::stake::lemma_stake_le_sum;

verus! {

/// The share of `amount` owed to a stake of `part` out of `total`, rounded toward zero.
pub open spec fn share_of(amount: u64, part: u64, total: u64) -> int {
    (amount as int * part as int) / total as int
}

/// `amount × part / total`, rounded toward zero, for `part <= total`.
pub fn stake_share(amount: u64, part: u64, total: u64) -> (r: u64)
    requires
        part <= total,
        total > 0,
    ensures
        r as int == share_of(amount, part, total),
{
    proof {
        assert(amount as int * part as int <= u64::MAX as int * u64::MAX as int) by (nonlinear_arith)
            requires
                amount <= u64::MAX,
                part <= u64::MAX,
        ;
    }
    let p: u128 = (amount as u128) * (part as u128);
    let q: u128 = p / (total as u128);
    proof {
        assert(q <= amount) by (nonlinear_arith)
            requires
                q as int == (amount as int * part as int) / total as int,
                part <= total,
                total > 0,
                amount >= 0,
        ;
    }
    q as u64
}

impl Index {
    /// Some bribe of `briber` targets `node`.
    pub open spec fn has_bribe(self, node: int, briber: u64) -> bool {
        exists|i: int|
            0 <= i < self.bribes@.len() && self.bribes@[i].node == node && #[trigger] self.bribes@[i].briber
                == briber
    }

    /// The bribe of `briber` on `node`, if any.
    pub fn find_bribe(&self, node: usize, briber: u64) -> (r: Option<usize>)
        ensures
            r is None <==> !self.has_bribe(node as int, briber),
            r matches Some(i) ==> i < self.bribes@.len() && self.bribes@[i as int].node == node
                && self.bribes@[i as int].briber == briber,
    {
        let mut i: usize = 0;
        while i < self.bribes.len()
            invariant
                0 <= i <= self.bribes@.len(),
                forall|j: int|
                    0 <= j < i ==> !(self.bribes@[j].node == node && self.bribes@[j].briber
                        == briber),
            decreases self.bribes@.len() - i,
        {
            if self.bribes[i].node == node && self.bribes[i].briber == briber {
                return Some(i);
            }
            i = i + 1;
        }
        None
    }

    /// Whether `staker` has claimed bribe `b`.
    pub fn has_claimed(&self, b: usize, staker: u64) -> (r: bool)
        requires
            b < self.bribes@.len(),
        ensures
            r == self.bribes@[b as int].claimed@.contains(staker),
    {
        let claimed = &self.bribes[b].claimed;
        let mut k: usize = 0;
        while k < claimed.len()
            invariant
                0 <= k <= claimed@.len(),
                claimed@ == self.bribes@[b as int].claimed@,
                forall|j: int| 0 <= j < k ==> claimed@[j] != staker,
            decreases claimed@.len() - k,
        {
            if claimed[k] == staker {
                return true;
            }
            k = k + 1;
        }
        false
    }

    /// Sets the bribe of `briber` on `node` to `amount`, for the stakers of
    /// whatever note holds `node`, creating the bribe on first use. Returns
    /// the bribe and the transfer of `amount` into its escrow.
    pub fn set_bribe(&mut self, node: usize, briber: u64, amount: u64) -> (r: Result<
        (usize, Transfer),
        DipErrors,
    >)
        requires
            old(self).wf(),
        ensures
            final(self).wf(),
            node >= old(self).nodes@.len() ==> r == Err::<(usize, Transfer), DipErrors>(
                DipErrors::InvalidNode,
            ),
            node < old(self).nodes@.len() ==> {
                &&& final(self).capacity == old(self).capacity
                &&& final(self).forests == old(self).forests
                &&& final(self).trees == old(self).trees
                &&& final(self).nodes == old(self).nodes
                &&& final(self).notes == old(self).notes
                &&& final(self).stakes == old(self).stakes
                &&& forall|b: int|
                    0 <= b < old(self).bribes@.len() && old(self).bribes@[b].node == node
                        && #[trigger] old(self).bribes@[b].briber == briber ==> {
                        let ob = old(self).bribes@[b];
                        &&& r == Ok::<(usize, Transfer), DipErrors>(
                            (
                                b as usize,
                                Transfer {
                                    from: Account::Wallet(briber),
                                    to: Account::Escrow(b as usize),
                                    amount,
                                    authority: Authority::Signer(briber),
                                },
                            ),
                        )
                        &&& final(self).bribes@.len() == old(self).bribes@.len()
                        &&& forall|j: int|
                            0 <= j < final(self).bribes@.len() && j != b
                                ==> #[trigger] final(self).bribes@[j] == old(self).bribes@[j]
                        &&& final(self).bribes@[b].amount == amount
                        &&& final(self).bribes@[b].node == ob.node
                        &&& final(self).bribes@[b].briber == ob.briber
                        &&& final(self).bribes@[b].claimed == ob.claimed
                    }
                &&& !old(self).has_bribe(node as int, briber) ==> {
                    let b = old(self).bribes@.len() as int;
                    &&& r == Ok::<(usize, Transfer), DipErrors>(
                        (
                            b as usize,
                            Transfer {
                                from: Account::Wallet(briber),
                                to: Account::Escrow(b as usize),
                                amount,
                                authority: Authority::Signer(briber),
                            },
                        ),
                    )
                    &&& final(self).bribes@.len() == b + 1
                    &&& final(self).bribes@.drop_last() == old(self).bribes@
                    &&& final(self).bribes@[b].node == node
                    &&& final(self).bribes@[b].briber == briber
                    &&& final(self).bribes@[b].amount == amount
                    &&& final(self).bribes@[b].claimed@.len() == 0
                }
            },
            r is Err ==> *final(self) == *old(self),
    {
        if node >= self.nodes.len() {
            return Err(DipErrors::InvalidNode);
        }
        let b = match self.find_bribe(node, briber) {
            Some(b) => {
                proof {
                    assert forall|j: int|
                        0 <= j < old(self).bribes@.len() && old(self).bribes@[j].node == node
                            && old(self).bribes@[j].briber == briber implies j == b by {
                        if j != b as int {
                            assert(old(self).bribes@[j].node == old(self).bribes@[b as int].node);
                        }
                    }
                }
                self.bribes[b].amount = amount;
                assert(self.bribes@.len() == old(self).bribes@.len());
                assert forall|j: int|
                    0 <= j < self.bribes@.len() && j != b implies #[trigger] self.bribes@[j]
                        == old(self).bribes@[j] by {}
                assert forall|x: int, y: int|
                    0 <= x < self.bribes@.len() && 0 <= y < self.bribes@.len() && x != y && (
                    #[trigger] self.bribes@[x]).node == (#[trigger] self.bribes@[y]).node
                        implies self.bribes@[x].briber != self.bribes@[y].briber by {
                    assert(old(self).bribes@[x].node == old(self).bribes@[y].node);
                }
                assert(self.wf_bribes());
                b
            },
            None => {
                let b = self.bribes.len();
                self.bribes.push(Bribe { node, briber, amount, claimed: Vec::new() });
                assert(self.bribes@.drop_last() == old(self).bribes@);
                assert forall|j: int| 0 <= j < self.bribes@.len() implies self.node_ok(
                    (#[trigger] self.bribes@[j]).node as int,
                ) by {
                    if j < b as int {
                        assert(self.bribes@[j] == old(self).bribes@[j]);
                    }
                }
                assert forall|x: int, y: int|
                    0 <= x < self.bribes@.len() && 0 <= y < self.bribes@.len() && x != y && (
                    #[trigger] self.bribes@[x]).node == (#[trigger] self.bribes@[y]).node
                        implies self.bribes@[x].briber != self.bribes@[y].briber by {
                    if x < b as int {
                        assert(self.bribes@[x] == old(self).bribes@[x]);
                    }
                    if y < b as int {
                        assert(self.bribes@[y] == old(self).bribes@[y]);
                    }
                }
                b
            },
        };
        assert(self.nodes == old(self).nodes);
        assert(self.trees == old(self).trees);
        assert(self.notes == old(self).notes);
        assert(self.stakes == old(self).stakes);
        assert(self.wf_trees());
        assert(self.wf_nodes());
        assert(self.wf_children());
        assert(self.wf_attachment());
        assert(self.wf_stakes());
        assert(self.wf_bribes());
        proof {
            self.lemma_wf_tags_frame(*old(self));
            assert forall|i: int| 0 <= i < old(self).nodes@.len() implies same_node_shape(
                #[trigger] self.nodes@[i],
                old(self).nodes@[i],
            ) by {}
            self.lemma_excl_frame(*old(self));
        }
        Ok(
            (
                b,
                Transfer {
                    from: Account::Wallet(briber),
                    to: Account::Escrow(b),
                    amount,
                    authority: Authority::Signer(briber),
                },
            ),
        )
    }

    /// `self` is `other` after the staker of account `s` claimed bribe `b`,
    /// which it had not claimed before.
    pub open spec fn bribe_claimed(self, other: Index, b: int, s: int) -> bool {
        let bb = other.bribes@[b];
        let staker = other.stakes@[s].staker;
        &&& !bb.claimed@.contains(staker)
        &&& self.bribes@.len() == other.bribes@.len()
        &&& forall|j: int|
            0 <= j < self.bribes@.len() && j != b ==> #[trigger] self.bribes@[j] == other.bribes@[j]
        &&& self.bribes@[b].node == bb.node
        &&& self.bribes@[b].briber == bb.briber
        &&& self.bribes@[b].amount == bb.amount
        &&& self.bribes@[b].claimed@ == bb.claimed@.push(staker)
        &&& self.capacity == other.capacity
        &&& self.forests == other.forests
        &&& self.trees == other.trees
        &&& self.nodes == other.nodes
        &&& self.notes == other.notes
        &&& self.stakes == other.stakes
    }

    /// Pays the holder of account `stake` its share of bribe `bribe`: the
    /// bribe's amount times the account's stake over its note's stake, rounded
    /// toward zero. The note must occupy the bribe's node, and each staker
    /// claims a bribe at most once. Returns the transfer out of the escrow.
    pub fn claim_bribe(&mut self, bribe: usize, stake: usize) -> (r: Result<Transfer, DipErrors>)
        requires
            old(self).wf(),
        ensures
            final(self).wf(),
            bribe >= old(self).bribes@.len() || stake >= old(self).stakes@.len() || !old(
                self,
            ).stakes@[stake as int].open ==> r == Err::<Transfer, DipErrors>(DipErrors::InvalidNode),
            bribe < old(self).bribes@.len() && stake < old(self).stakes@.len() && old(
                self,
            ).stakes@[stake as int].open ==> {
                let bb = old(self).bribes@[bribe as int];
                let acc = old(self).stakes@[stake as int];
                let total = old(self).notes@[acc.note as int].stake;
                let on = old(self).nodes@[bb.node as int].attached_note == Some(acc.note);
                let fresh = !bb.claimed@.contains(acc.staker);
                &&& !on ==> r == Err::<Transfer, DipErrors>(DipErrors::NotOnNode)
                &&& on && !fresh ==> r == Err::<Transfer, DipErrors>(DipErrors::AlreadyClaimed)
                &&& on && fresh && total == 0 ==> r == Err::<Transfer, DipErrors>(
                    DipErrors::NotEnoughStake,
                )
                &&& on && fresh && total > 0 ==> {
                    &&& acc.stake <= total
                    &&& r == Ok::<Transfer, DipErrors>(
                        Transfer {
                            from: Account::Escrow(bribe),
                            to: Account::Wallet(acc.staker),
                            amount: share_of(bb.amount, acc.stake, total) as u64,
                            authority: Authority::Forest(
                                old(self).forest_of_node(bb.node as int) as usize,
                            ),
                        },
                    )
                    &&& final(self).bribe_claimed(*old(self), bribe as int, stake as int)
                }
            },
            r is Err ==> *final(self) == *old(self),
    {
        if bribe >= self.bribes.len() || stake >= self.stakes.len() || !self.stakes[stake].open {
            return Err(DipErrors::InvalidNode);
        }
        let acc = self.stakes[stake];
        let n = self.bribes[bribe].node;
        if self.nodes[n].attached_note != Some(acc.note) {
            return Err(DipErrors::NotOnNode);
        }
        if self.has_claimed(bribe, acc.staker) {
            return Err(DipErrors::AlreadyClaimed);
        }
        let total = self.notes[acc.note].stake;
        if total == 0 {
            return Err(DipErrors::NotEnoughStake);
        }
        proof {
            lemma_stake_le_sum(self.stakes@, stake as int, acc.note as int);
        }
        let amount = stake_share(self.bribes[bribe].amount, acc.stake, total);
        let forest = self.trees[self.nodes[n].tree].forest;
        self.bribes[bribe].claimed.push(acc.staker);
        assert(self.bribes@.len() == old(self).bribes@.len());
        assert forall|j: int|
            0 <= j < self.bribes@.len() && j != bribe implies #[trigger] self.bribes@[j]
                == old(self).bribes@[j] by {}
        assert forall|x: int, y: int|
            0 <= x < self.bribes@.len() && 0 <= y < self.bribes@.len() && x != y && (
            #[trigger] self.bribes@[x]).node == (#[trigger] self.bribes@[y]).node
                implies self.bribes@[x].briber != self.bribes@[y].briber by {
            assert(old(self).bribes@[x].node == old(self).bribes@[y].node);
        }
        assert(self.nodes == old(self).nodes);
        assert(self.trees == old(self).trees);
        assert(self.notes == old(self).notes);
        assert(self.stakes == old(self).stakes);
        assert(self.wf_trees());
        assert(self.wf_nodes());
        assert(self.wf_children());
        assert(self.wf_attachment());
        assert(self.wf_stakes());
        assert(self.wf_bribes());
        proof {
            self.lemma_wf_tags_frame(*old(self));
            assert forall|i: int| 0 <= i < old(self).nodes@.len() implies same_node_shape(
                #[trigger] self.nodes@[i],
                old(self).nodes@[i],
            ) by {}
            self.lemma_excl_frame(*old(self));
        }
        Ok(
            Transfer {
                from: Account::Escrow(bribe),
                to: Account::Wallet(acc.staker),
                amount,
                authority: Authority::Forest(forest),
            },
        )
    }
}

} // verus!
