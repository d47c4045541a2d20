use vstd::prelude::*;
use crate::errors::DipErrors;
use crate::index::{Account, Authority, Index, StakeAccount, Transfer, stake_sum};
use crate::notes::same_node_shape;

verus! {

/// Changing the stake of one account moves the sum of its note by the difference.
pub proof fn lemma_stake_sum_update(s: Seq<StakeAccount>, j: int, x: StakeAccount, t: int)
    requires
        0 <= j < s.len(),
        x.note == s[j].note,
    ensures
        stake_sum(s.update(j, x), t) == stake_sum(s, t) + if s[j].note == t {
            x.stake - s[j].stake
        } else {
            0
        },
    decreases s.len(),
{
    if j == s.len() - 1 {
        assert(s.update(j, x).drop_last() =~= s.drop_last());
    } else {
        assert(s.update(j, x).drop_last() =~= s.drop_last().update(j, x));
        lemma_stake_sum_update(s.drop_last(), j, x, t);
    }
}

/// A new account adds its stake to the sum of its note.
pub proof fn lemma_stake_sum_push(s: Seq<StakeAccount>, x: StakeAccount, t: int)
    ensures
        stake_sum(s.push(x), t) == stake_sum(s, t) + if x.note == t {
            x.stake as int
        } else {
            0
        },
{
    assert(s.push(x).drop_last() =~= s);
}

/// One account's stake is at most the sum of its note.
pub proof fn lemma_stake_le_sum(s: Seq<StakeAccount>, j: int, t: int)
    requires
        0 <= j < s.len(),
        s[j].note == t,
    ensures
        s[j].stake <= stake_sum(s, t),
    decreases s.len(),
{
    lemma_stake_sum_nonneg(s.drop_last(), t);
    if j < s.len() - 1 {
        lemma_stake_le_sum(s.drop_last(), j, t);
    }
}

/// A sum of stakes is never negative.
pub proof fn lemma_stake_sum_nonneg(s: Seq<StakeAccount>, t: int)
    ensures
        stake_sum(s, t) >= 0,
    decreases s.len(),
{
    if s.len() > 0 {
        lemma_stake_sum_nonneg(s.drop_last(), t);
    }
}

impl Index {
    /// Some account stands for `staker` on `note`.
    pub open spec fn has_stake(self, note: int, staker: u64) -> bool {
        exists|i: int|
            0 <= i < self.stakes@.len() && self.stakes@[i].note == note && #[trigger] self.stakes@[i].staker
                == staker
    }

    /// `self` is `other` with `d` added to the stake of account `s`, to its
    /// note, and to the node that note occupies, if any.
    pub open spec fn stake_applied(self, other: Index, s: int, d: int) -> bool {
        let acc = other.stakes@[s];
        let t = acc.note as int;
        &&& self.capacity == other.capacity
        &&& self.forests == other.forests
        &&& self.trees == other.trees
        &&& self.bribes == other.bribes
        &&& self.stakes@ == other.stakes@.update(s, StakeAccount { stake: (acc.stake + d) as u64, ..acc })
        &&& self.notes@.len() == other.notes@.len()
        &&& self.notes@[t].stake == other.notes@[t].stake + d
        &&& self.notes@[t].location == other.notes@[t].location
        &&& self.notes@[t].id == other.notes@[t].id
        &&& self.notes@[t].forest == other.notes@[t].forest
        &&& self.notes@[t].title == other.notes@[t].title
        &&& self.notes@[t].website == other.notes@[t].website
        &&& self.notes@[t].image == other.notes@[t].image
        &&& self.notes@[t].description == other.notes@[t].description
        &&& forall|j: int|
            0 <= j < self.notes@.len() && j != t ==> #[trigger] self.notes@[j] == other.notes@[j]
        &&& self.nodes@.len() == other.nodes@.len()
        &&& forall|j: int|
            0 <= j < self.nodes@.len() && other.notes@[t].location != Some(j as usize)
                ==> #[trigger] self.nodes@[j] == other.nodes@[j]
        &&& match other.notes@[t].location {
            Some(n) => {
                &&& same_node_shape(self.nodes@[n as int], other.nodes@[n as int])
                &&& self.nodes@[n as int].attached_note == other.nodes@[n as int].attached_note
                &&& self.nodes@[n as int].stake == other.nodes@[n as int].stake + d
            },
            None => true,
        }
    }

    /// The transfer that moving `d` tokens into account `s` takes: from the
    /// staker into the forest's custody when `d` is not negative, and back
    /// under the forest's authority otherwise.
    pub open spec fn stake_transfer(self, s: int, d: int) -> Transfer {
        let staker = self.stakes@[s].staker;
        let f = self.notes@[self.stakes@[s].note as int].forest;
        if d >= 0 {
            Transfer {
                from: Account::Wallet(staker),
                to: Account::Custody(f),
                amount: d as u64,
                authority: Authority::Signer(staker),
            }
        } else {
            Transfer {
                from: Account::Custody(f),
                to: Account::Wallet(staker),
                amount: (-d) as u64,
                authority: Authority::Forest(f),
            }
        }
    }

    /// The account of `staker` on `note`, if any.
    pub fn find_stake(&self, note: usize, staker: u64) -> (r: Option<usize>)
        ensures
            r is None <==> !self.has_stake(note as int, staker),
            r matches Some(i) ==> i < self.stakes@.len() && self.stakes@[i as int].note == note
                && self.stakes@[i as int].staker == staker,
    {
        let mut i: usize = 0;
        while i < self.stakes.len()
            invariant
                0 <= i <= self.stakes@.len(),
                forall|j: int|
                    0 <= j < i ==> !(self.stakes@[j].note == note && self.stakes@[j].staker
                        == staker),
            decreases self.stakes@.len() - i,
        {
            if self.stakes[i].note == note && self.stakes[i].staker == staker {
                return Some(i);
            }
            i = i + 1;
        }
        None
    }

    /// Opens the account of `staker` on `note`, creating it with no stake
    /// when there is none. Opening an open account changes nothing.
    pub fn create_stake(&mut self, note: usize, staker: u64) -> (r: Result<usize, DipErrors>)
        requires
            old(self).wf(),
        ensures
            final(self).wf(),
            note >= old(self).notes@.len() ==> r == Err::<usize, DipErrors>(DipErrors::InvalidNode),
            note < old(self).notes@.len() && old(self).has_stake(note as int, staker) ==> {
                &&& r matches Ok(i) && i < old(self).stakes@.len() && old(self).stakes@[i as int].note
                    == note && old(self).stakes@[i as int].staker == staker
                    && final(self).stakes@ == old(self).stakes@.update(
                    i as int,
                    (StakeAccount { open: true, ..old(self).stakes@[i as int] }),
                )
                &&& final(self).capacity == old(self).capacity
                &&& final(self).forests == old(self).forests
                &&& final(self).trees == old(self).trees
                &&& final(self).nodes == old(self).nodes
                &&& final(self).notes == old(self).notes
                &&& final(self).bribes == old(self).bribes
            },
            note < old(self).notes@.len() && !old(self).has_stake(note as int, staker) ==> {
                &&& r == Ok::<usize, DipErrors>(old(self).stakes@.len() as usize)
                &&& final(self).stakes@ == old(self).stakes@.push(
                    (StakeAccount { note, staker, stake: 0, open: true }),
                )
                &&& final(self).capacity == old(self).capacity
                &&& final(self).forests == old(self).forests
                &&& final(self).trees == old(self).trees
                &&& final(self).nodes == old(self).nodes
                &&& final(self).notes == old(self).notes
                &&& final(self).bribes == old(self).bribes
            },
            r is Err ==> *final(self) == *old(self),
    {
        if note >= self.notes.len() {
            return Err(DipErrors::InvalidNode);
        }
        match self.find_stake(note, staker) {
            Some(i) => {
                let acc = self.stakes[i];
                self.stakes.set(i, StakeAccount { open: true, ..acc });
                proof {
                    lemma_stake_sum_update(old(self).stakes@, i as int, self.stakes@[i as int], 0);
                    assert forall|t: int| 0 <= t < self.notes@.len() implies (
                    #[trigger] self.notes@[t]).stake == stake_sum(self.stakes@, t) by {
                        lemma_stake_sum_update(old(self).stakes@, i as int, self.stakes@[i as int], t);
                    }
                    assert(self.wf_stakes());
                }
                proof {
                    self.lemma_wf_tags_frame(*old(self));
                    assert forall|i: int| 0 <= i < old(self).nodes@.len() implies same_node_shape(
                        #[trigger] self.nodes@[i],
                        old(self).nodes@[i],
                    ) by {}
                    self.lemma_excl_frame(*old(self));
                }
                Ok(i)
            },
            None => {
                let i = self.stakes.len();
                self.stakes.push(StakeAccount { note, staker, stake: 0, open: true });
                proof {
                    assert forall|t: int| 0 <= t < self.notes@.len() implies (
                    #[trigger] self.notes@[t]).stake == stake_sum(self.stakes@, t) by {
                        lemma_stake_sum_push(old(self).stakes@, self.stakes@[i as int], t);
                        assert(self.stakes@ == old(self).stakes@.push(self.stakes@[i as int]));
                    }
                    assert forall|a: int, b: int|
                        0 <= a < self.stakes@.len() && 0 <= b < self.stakes@.len() && a != b && (
                        #[trigger] self.stakes@[a]).note == (#[trigger] self.stakes@[b]).note
                            implies self.stakes@[a].staker != self.stakes@[b].staker by {
                        if a != i as int && b != i as int {
                            assert(self.stakes@[a] == old(self).stakes@[a]);
                            assert(self.stakes@[b] == old(self).stakes@[b]);
                        } else if a == i as int {
                            assert(self.stakes@[b] == old(self).stakes@[b]);
                        } else {
                            assert(self.stakes@[a] == old(self).stakes@[a]);
                        }
                    }
                    assert(self.wf_stakes());
                }
                proof {
                    self.lemma_wf_tags_frame(*old(self));
                    assert forall|i: int| 0 <= i < old(self).nodes@.len() implies same_node_shape(
                        #[trigger] self.nodes@[i],
                        old(self).nodes@[i],
                    ) by {}
                    self.lemma_excl_frame(*old(self));
                }
                Ok(i)
            },
        }
    }

    /// Adds `delta` to account `stake`, to its note and to the node that note
    /// occupies. Tokens go from the staker's wallet into the forest's custody
    /// when `delta` is positive, and back, under the forest's authority, when
    /// it is negative: the transfer is returned. Taking out more than the
    /// account holds fails with `NotEnoughStake`.
    pub fn update_stake(&mut self, stake: usize, delta: i128) -> (r: Result<Transfer, DipErrors>)
        requires
            old(self).wf(),
        ensures
            final(self).wf(),
            stake >= old(self).stakes@.len() || !old(self).stakes@[stake as int].open ==> r == Err::<
                Transfer,
                DipErrors,
            >(DipErrors::InvalidNode),
            stake < old(self).stakes@.len() && old(self).stakes@[stake as int].open ==> {
                let acc = old(self).stakes@[stake as int];
                let note = old(self).notes@[acc.note as int];
                &&& delta >= 0 && note.stake + delta > u64::MAX ==> r == Err::<Transfer, DipErrors>(
                    DipErrors::StakeOverflow,
                )
                &&& delta >= 0 && note.stake + delta <= u64::MAX ==> {
                    &&& r == Ok::<Transfer, DipErrors>(old(self).stake_transfer(stake as int, delta as int))
                    &&& final(self).stake_applied(*old(self), stake as int, delta as int)
                }
                &&& delta < 0 && -delta > acc.stake ==> r == Err::<Transfer, DipErrors>(
                    DipErrors::NotEnoughStake,
                )
                &&& delta < 0 && -delta <= acc.stake ==> {
                    &&& r == Ok::<Transfer, DipErrors>(old(self).stake_transfer(stake as int, delta as int))
                    &&& final(self).stake_applied(*old(self), stake as int, delta as int)
                }
            },
            r is Err ==> *final(self) == *old(self),
    {
        if stake >= self.stakes.len() || !self.stakes[stake].open {
            return Err(DipErrors::InvalidNode);
        }
        let acc = self.stakes[stake];
        let t = acc.note;
        proof {
            lemma_stake_le_sum(self.stakes@, stake as int, t as int);
        }
        let f = self.notes[t].forest;
        let note_stake = self.notes[t].stake;
        let new_acc: u64;
        let new_note: u64;
        let transfer: Transfer;
        if delta >= 0 {
            if delta > (u64::MAX - note_stake) as i128 {
                return Err(DipErrors::StakeOverflow);
            }
            let d = delta as u64;
            new_acc = acc.stake + d;
            new_note = note_stake + d;
            transfer = Transfer {
                from: Account::Wallet(acc.staker),
                to: Account::Custody(f),
                amount: d,
                authority: Authority::Signer(acc.staker),
            };
        } else {
            if delta < -(acc.stake as i128) {
                return Err(DipErrors::NotEnoughStake);
            }
            let d = (-delta) as u64;
            new_acc = acc.stake - d;
            new_note = note_stake - d;
            transfer = Transfer {
                from: Account::Custody(f),
                to: Account::Wallet(acc.staker),
                amount: d,
                authority: Authority::Forest(f),
            };
        }
        self.stakes.set(stake, StakeAccount { stake: new_acc, ..acc });
        self.notes[t].stake = new_note;
        let loc = self.notes[t].location;
        assert(loc matches Some(m) ==> m < self.nodes@.len());
        if let Some(n) = loc {
            self.nodes[n].stake = new_note;
        }
        proof {
            let o = *old(self);
            assert(self.nodes@.len() == self.nodes.len());
            assert(self.notes@.len() == o.notes@.len());
            assert(self.nodes@.len() == o.nodes@.len());
            assert forall|j: int| 0 <= j < self.notes@.len() && j != t implies #[trigger] self.notes@[j] == o.notes@[j] by {}
            assert forall|j: int| 0 <= j < self.nodes@.len() && loc != Some(j as usize) implies #[trigger] self.nodes@[j] == o.nodes@[j] by {}
            assert forall|tt: int| 0 <= tt < self.notes@.len() implies (#[trigger] self.notes@[tt]).stake
                == stake_sum(self.stakes@, tt) by {
                lemma_stake_sum_update(o.stakes@, stake as int, self.stakes@[stake as int], tt);
                assert(o.notes@[tt].stake == stake_sum(o.stakes@, tt));
            }
            assert forall|a: int, b: int|
                0 <= a < self.stakes@.len() && 0 <= b < self.stakes@.len() && a != b && (
                #[trigger] self.stakes@[a]).note == (#[trigger] self.stakes@[b]).note
                    implies self.stakes@[a].staker != self.stakes@[b].staker by {
                assert(o.stakes@[a].note == o.stakes@[b].note);
            }
            assert forall|ss: int| 0 <= ss < self.stakes@.len() implies self.note_ok(
                (#[trigger] self.stakes@[ss]).note as int) && (!self.stakes@[ss].open
                ==> self.stakes@[ss].stake == 0) by {
                assert(o.note_ok(o.stakes@[ss].note as int));
            }
            assert(self.wf_stakes());
            assert(self.notes@[t as int].stake == new_note);
            assert(self.notes@[t as int].location == loc);
            if let Some(m) = loc {
                assert(o.nodes@[m as int].attached_note == Some(t));
                assert(self.nodes@[m as int].attached_note == Some(t));
                assert(self.nodes@[m as int].stake == new_note);
            }
            assert forall|n: int| 0 <= n < self.nodes@.len() implies match (#[trigger] self.nodes@[n]).attached_note {
                Some(x) => self.note_ok(x as int) && self.notes@[x as int].location == Some(n as usize)
                    && self.nodes@[n].stake == self.notes@[x as int].stake,
                None => self.nodes@[n].stake == 0,
            } by {
                if loc is Some && loc->Some_0 as int == n {
                    assert(self.nodes@[n].attached_note == Some(t));
                } else {
                    assert(self.nodes@[n] == o.nodes@[n]);
                    assert(o.wf_attachment());
                    let on = o.nodes@[n];
                    if let Some(x) = on.attached_note {
                        assert(o.note_ok(x as int));
                        assert(o.notes@[x as int].location == Some(n as usize));
                        assert(o.notes@[t as int].location == loc);
                        assert(x != t);
                        assert(self.notes@[x as int] == o.notes@[x as int]);
                    }
                }
            }
            assert forall|tt: int| 0 <= tt < self.notes@.len() implies {
                &&& (#[trigger] self.notes@[tt]).forest < self.forests@.len()
                &&& match self.notes@[tt].location {
                    Some(n) => self.node_ok(n as int) && self.nodes@[n as int].attached_note == Some(
                        tt as usize,
                    ),
                    None => true,
                }
            } by {
                assert(o.notes@[tt].location == self.notes@[tt].location);
                assert(o.notes@[tt].forest == self.notes@[tt].forest);
            }
            assert(self.wf_attachment());
            assert forall|j: int| 0 <= j < self.nodes@.len() implies same_node_shape(
                #[trigger] self.nodes@[j], o.nodes@[j]) by {}
            assert forall|j: int| 0 <= j < self.notes@.len() implies (#[trigger] self.notes@[j]).forest
                == o.notes@[j].forest && self.notes@[j].id == o.notes@[j].id by {}
            self.lemma_shape_wf(o);
        }
        Ok(transfer)
    }

    /// Closes account `stake`, which must hold no stake.
    pub fn close_stake(&mut self, stake: usize) -> (r: Result<(), DipErrors>)
        requires
            old(self).wf(),
        ensures
            final(self).wf(),
            stake >= old(self).stakes@.len() || !old(self).stakes@[stake as int].open ==> r == Err::<
                (),
                DipErrors,
            >(DipErrors::InvalidNode),
            stake < old(self).stakes@.len() && old(self).stakes@[stake as int].open ==> {
                &&& old(self).stakes@[stake as int].stake != 0 ==> r == Err::<(), DipErrors>(
                    DipErrors::StakeNotEmpty,
                )
                &&& old(self).stakes@[stake as int].stake == 0 ==> {
                    &&& r is Ok
                    &&& final(self).stakes@ == old(self).stakes@.update(
                        stake as int,
                        (StakeAccount { open: false, ..old(self).stakes@[stake as int] }),
                    )
                    &&& final(self).capacity == old(self).capacity
                    &&& final(self).forests == old(self).forests
                    &&& final(self).trees == old(self).trees
                    &&& final(self).nodes == old(self).nodes
                    &&& final(self).notes == old(self).notes
                    &&& final(self).bribes == old(self).bribes
                }
            },
            r is Err ==> *final(self) == *old(self),
    {
        if stake >= self.stakes.len() || !self.stakes[stake].open {
            return Err(DipErrors::InvalidNode);
        }
        let acc = self.stakes[stake];
        if acc.stake != 0 {
            return Err(DipErrors::StakeNotEmpty);
        }
        self.stakes.set(stake, StakeAccount { open: false, ..acc });
        proof {
            assert forall|t: int| 0 <= t < self.notes@.len() implies (#[trigger] self.notes@[t]).stake
                == stake_sum(self.stakes@, t) by {
                lemma_stake_sum_update(old(self).stakes@, stake as int, self.stakes@[stake as int], t);
            }
            assert(self.wf_stakes());
        }
        proof {
            self.lemma_wf_tags_frame(*old(self));
            assert forall|i: int| 0 <= i < old(self).nodes@.len() implies same_node_shape(
                #[trigger] self.nodes@[i],
                old(self).nodes@[i],
            ) by {}
            self.lemma_excl_frame(*old(self));
        }
        Ok(())
    }
}

} // verus!
