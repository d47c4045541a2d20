use vstd::prelude::*;
use crate::errors::DipErrors;
use crate::index::{Index, Node, Note, stake_sum, MAX_STRING_LENGTH};

verus! {

/// `a` and `b` agree on everything but the attached note and the stake.
pub open spec fn same_node_shape(a: Node, b: Node) -> bool {
    &&& a.tree == b.tree
    &&& a.parent == b.parent
    &&& a.tag == b.tag
    &&& a.children == b.children
}

/// `a` and `b` agree on everything but the location.
pub open spec fn same_note_content(a: Note, b: Note) -> bool {
    &&& a.id == b.id
    &&& a.forest == b.forest
    &&& a.title == b.title
    &&& a.website == b.website
    &&& a.image == b.image
    &&& a.description == b.description
    &&& a.stake == b.stake
}

impl Index {
    /// Some note of forest `f` has id `id`.
    pub open spec fn has_note(self, f: int, id: u64) -> bool {
        exists|i: int|
            0 <= i < self.notes@.len() && self.notes@[i].forest == f && #[trigger] self.notes@[i].id
                == id
    }

    /// Only which notes occupy which nodes, and node stakes, differ between
    /// `self` and `other`; of those, only at nodes `n1`, `n2` and notes `t1`, `t2`.
    pub open spec fn only_occupancy_changed(
        self,
        other: Index,
        n1: int,
        n2: int,
        t1: int,
        t2: int,
    ) -> bool {
        &&& self.capacity == other.capacity
        &&& self.forests == other.forests
        &&& self.trees == other.trees
        &&& self.stakes == other.stakes
        &&& self.bribes == other.bribes
        &&& self.nodes@.len() == other.nodes@.len()
        &&& self.notes@.len() == other.notes@.len()
        &&& forall|j: int|
            0 <= j < self.nodes@.len() ==> same_node_shape(
                #[trigger] self.nodes@[j],
                other.nodes@[j],
            ) && (j != n1 && j != n2 ==> self.nodes@[j] == other.nodes@[j])
        &&& forall|j: int|
            0 <= j < self.notes@.len() ==> same_note_content(
                #[trigger] self.notes@[j],
                other.notes@[j],
            ) && (j != t1 && j != t2 ==> self.notes@[j] == other.notes@[j])
    }

    /// `self` is `other` after `note` moved from node `from` to node `to`.
    pub open spec fn note_moved(self, other: Index, from: int, to: int, note: int) -> bool {
        &&& self.only_occupancy_changed(other, from, to, note, note)
        &&& self.nodes@[from].attached_note is None
        &&& self.nodes@[from].stake == 0
        &&& self.nodes@[to].attached_note == Some(note as usize)
        &&& self.nodes@[to].stake == other.notes@[note].stake
        &&& self.notes@[note].location == Some(to as usize)
    }

    /// The note of forest `f` with id `id`, if any.
    pub fn find_note(&self, f: usize, id: u64) -> (r: Option<usize>)
        ensures
            r is None <==> !self.has_note(f as int, id),
            r matches Some(i) ==> i < self.notes@.len() && self.notes@[i as int].forest == f
                && self.notes@[i as int].id == id,
    {
        let mut i: usize = 0;
        while i < self.notes.len()
            invariant
                0 <= i <= self.notes@.len(),
                forall|j: int|
                    0 <= j < i ==> !(self.notes@[j].forest == f && self.notes@[j].id == id),
            decreases self.notes@.len() - i,
        {
            if self.notes[i].forest == f && self.notes[i].id == id {
                return Some(i);
            }
            i = i + 1;
        }
        None
    }

    /// Creates a detached note of `forest` with id `id` and the given content.
    pub fn create_note(
        &mut self,
        forest: usize,
        id: u64,
        title: &str,
        website: &str,
        image: &str,
        description: &str,
    ) -> (r: Result<usize, DipErrors>)
        requires
            old(self).wf(),
        ensures
            final(self).wf(),
            forest >= old(self).forests@.len() ==> r == Err::<usize, DipErrors>(DipErrors::InvalidNode),
            forest < old(self).forests@.len() && (title.len() > MAX_STRING_LENGTH
                || website.len() > MAX_STRING_LENGTH || image.len()
                > MAX_STRING_LENGTH || description.len() > MAX_STRING_LENGTH) ==> r
                == Err::<usize, DipErrors>(DipErrors::StringTooLong),
            forest < old(self).forests@.len() && title.len() <= MAX_STRING_LENGTH
                && website.len() <= MAX_STRING_LENGTH && image.len()
                <= MAX_STRING_LENGTH && description.len() <= MAX_STRING_LENGTH ==> {
                let t = old(self).notes@.len() as usize;
                &&& old(self).has_note(forest as int, id) ==> r == Err::<usize, DipErrors>(
                    DipErrors::AlreadyExists,
                )
                &&& !old(self).has_note(forest as int, id) ==> {
                    &&& r == Ok::<usize, DipErrors>(t)
                    &&& final(self).notes@.len() == t + 1
                    &&& final(self).notes@.drop_last() == old(self).notes@
                    &&& final(self).notes@[t as int].id == id
                    &&& final(self).notes@[t as int].forest == forest
                    &&& final(self).notes@[t as int].title@ == title@
                    &&& final(self).notes@[t as int].website@ == website@
                    &&& final(self).notes@[t as int].image@ == image@
                    &&& final(self).notes@[t as int].description@ == description@
                    &&& final(self).notes@[t as int].stake == 0
                    &&& final(self).notes@[t as int].location is None
                    &&& final(self).capacity == old(self).capacity
                    &&& final(self).forests == old(self).forests
                    &&& final(self).trees == old(self).trees
                    &&& final(self).nodes == old(self).nodes
                    &&& final(self).stakes == old(self).stakes
                    &&& final(self).bribes == old(self).bribes
                }
            },
            r is Err ==> *final(self) == *old(self),
    {
        if forest >= self.forests.len() {
            return Err(DipErrors::InvalidNode);
        }
        if title.len() > MAX_STRING_LENGTH || website.len() > MAX_STRING_LENGTH || image.len()
            > MAX_STRING_LENGTH || description.len() > MAX_STRING_LENGTH {
            return Err(DipErrors::StringTooLong);
        }
        if self.find_note(forest, id).is_some() {
            return Err(DipErrors::AlreadyExists);
        }
        let t = self.notes.len();
        self.notes.push(
            Note {
                id,
                forest,
                title: title.to_owned(),
                website: website.to_owned(),
                image: image.to_owned(),
                description: description.to_owned(),
                stake: 0,
                location: None,
            },
        );
        assert(self.notes@.drop_last() == old(self).notes@);
        proof {
            old(self).lemma_stake_sum_zero(t as int);
        }
        assert forall|j: int| 0 <= j < self.notes@.len() implies {
            &&& (#[trigger] self.notes@[j]).forest < self.forests@.len()
            &&& match self.notes@[j].location {
                Some(n) => self.node_ok(n as int) && self.nodes@[n as int].attached_note == Some(
                    j as usize,
                ),
                None => true,
            }
        } by {
            if j < t as int {
                assert(self.notes@[j] == old(self).notes@[j]);
            }
        }
        assert forall|n: int| 0 <= n < self.nodes@.len() implies match (#[trigger] self.nodes@[n]).attached_note {
            Some(x) => self.note_ok(x as int) && self.notes@[x as int].location == Some(n as usize)
                && self.nodes@[n].stake == self.notes@[x as int].stake,
            None => self.nodes@[n].stake == 0,
        } by {
            if let Some(x) = self.nodes@[n].attached_note {
                assert(self.notes@[x as int] == old(self).notes@[x as int]);
            }
        }
        assert(self.wf_trees());
        assert(self.wf_nodes());
        assert(self.wf_children());
        assert(self.wf_attachment());
        assert(self.wf_stakes());
        assert(self.wf_bribes());
        proof {
            self.lemma_wf_tags_frame(*old(self));
            assert forall|i: int| 0 <= i < old(self).nodes@.len() implies same_node_shape(
                #[trigger] self.nodes@[i],
                old(self).nodes@[i],
            ) by {}
            self.lemma_excl_frame(*old(self));
        }
        Ok(t)
    }

    /// Binds `note` to the empty node `node`. The node takes the note's stake.
    pub fn attach_note(&mut self, node: usize, note: usize) -> (r: Result<(), DipErrors>)
        requires
            old(self).wf(),
        ensures
            final(self).wf(),
            node >= old(self).nodes@.len() || note >= old(self).notes@.len() ==> r == Err::<
                (),
                DipErrors,
            >(DipErrors::InvalidNode),
            node < old(self).nodes@.len() && note < old(self).notes@.len() ==> {
                let free = old(self).nodes@[node as int].attached_note is None && old(
                    self,
                ).notes@[note as int].location is None;
                &&& !free ==> r == Err::<(), DipErrors>(DipErrors::AlreadyOnNode)
                &&& free ==> {
                    &&& r is Ok
                    &&& final(self).only_occupancy_changed(
                        *old(self),
                        node as int,
                        node as int,
                        note as int,
                        note as int,
                    )
                    &&& final(self).nodes@[node as int].attached_note == Some(note)
                    &&& final(self).nodes@[node as int].stake == old(self).notes@[note as int].stake
                    &&& final(self).notes@[note as int].location == Some(node)
                }
            },
            r is Err ==> *final(self) == *old(self),
    {
        if node >= self.nodes.len() || note >= self.notes.len() {
            return Err(DipErrors::InvalidNode);
        }
        if self.nodes[node].attached_note.is_some() || self.notes[note].location.is_some() {
            return Err(DipErrors::AlreadyOnNode);
        }
        let stake = self.notes[note].stake;
        self.nodes[node].attached_note = Some(note);
        self.nodes[node].stake = stake;
        self.notes[note].location = Some(node);
        proof {
            self.lemma_occupancy_wf(*old(self));
        }
        Ok(())
    }

    /// Moves `note` from node `from` to the empty node `to`; both node stakes follow.
    pub fn move_note(&mut self, from: usize, to: usize, note: usize) -> (r: Result<(), DipErrors>)
        requires
            old(self).wf(),
        ensures
            final(self).wf(),
            from >= old(self).nodes@.len() || to >= old(self).nodes@.len() || note >= old(
                self,
            ).notes@.len() ==> r == Err::<(), DipErrors>(DipErrors::InvalidNode),
            from < old(self).nodes@.len() && to < old(self).nodes@.len() && note < old(
                self,
            ).notes@.len() ==> {
                &&& old(self).notes@[note as int].location != Some(from) ==> r == Err::<
                    (),
                    DipErrors,
                >(DipErrors::NotOnNode)
                &&& old(self).notes@[note as int].location == Some(from) && old(
                    self,
                ).nodes@[to as int].attached_note is Some ==> r == Err::<(), DipErrors>(
                    DipErrors::AlreadyOnNode,
                )
                &&& old(self).notes@[note as int].location == Some(from) && old(
                    self,
                ).nodes@[to as int].attached_note is None ==> {
                    &&& r is Ok
                    &&& final(self).note_moved(*old(self), from as int, to as int, note as int)
                }
            },
            r is Err ==> *final(self) == *old(self),
    {
        if from >= self.nodes.len() || to >= self.nodes.len() || note >= self.notes.len() {
            return Err(DipErrors::InvalidNode);
        }
        if self.notes[note].location != Some(from) {
            return Err(DipErrors::NotOnNode);
        }
        if self.nodes[to].attached_note.is_some() {
            return Err(DipErrors::AlreadyOnNode);
        }
        let stake = self.notes[note].stake;
        self.nodes[from].attached_note = None;
        self.nodes[from].stake = 0;
        self.nodes[to].attached_note = Some(note);
        self.nodes[to].stake = stake;
        self.notes[note].location = Some(to);
        proof {
            self.lemma_occupancy_wf(*old(self));
        }
        Ok(())
    }

    /// Displaces `incumbent` from `node` by the detached note `challenger`,
    /// which must hold strictly more stake.
    pub fn replace_note(&mut self, node: usize, incumbent: usize, challenger: usize) -> (r: Result<
        (),
        DipErrors,
    >)
        requires
            old(self).wf(),
        ensures
            final(self).wf(),
            node >= old(self).nodes@.len() || incumbent >= old(self).notes@.len() || challenger
                >= old(self).notes@.len() ==> r == Err::<(), DipErrors>(DipErrors::InvalidNode),
            node < old(self).nodes@.len() && incumbent < old(self).notes@.len() && challenger < old(
                self,
            ).notes@.len() ==> {
                let on = old(self).nodes@[node as int].attached_note == Some(incumbent);
                let free = old(self).notes@[challenger as int].location is None;
                let more = old(self).notes@[challenger as int].stake > old(
                    self,
                ).notes@[incumbent as int].stake;
                &&& !on ==> r == Err::<(), DipErrors>(DipErrors::NotOnNode)
                &&& on && !free ==> r == Err::<(), DipErrors>(DipErrors::AlreadyOnNode)
                &&& on && free && !more ==> r == Err::<(), DipErrors>(DipErrors::NotEnoughStake)
                &&& on && free && more ==> {
                    &&& r is Ok
                    &&& final(self).only_occupancy_changed(
                        *old(self),
                        node as int,
                        node as int,
                        incumbent as int,
                        challenger as int,
                    )
                    &&& final(self).nodes@[node as int].attached_note == Some(challenger)
                    &&& final(self).nodes@[node as int].stake == old(
                        self,
                    ).notes@[challenger as int].stake
                    &&& final(self).notes@[incumbent as int].location is None
                    &&& final(self).notes@[challenger as int].location == Some(node)
                }
            },
            r is Err ==> *final(self) == *old(self),
    {
        if node >= self.nodes.len() || incumbent >= self.notes.len() || challenger
            >= self.notes.len() {
            return Err(DipErrors::InvalidNode);
        }
        if self.nodes[node].attached_note != Some(incumbent) {
            return Err(DipErrors::NotOnNode);
        }
        if self.notes[challenger].location.is_some() {
            return Err(DipErrors::AlreadyOnNode);
        }
        let stake = self.notes[challenger].stake;
        if stake <= self.notes[incumbent].stake {
            return Err(DipErrors::NotEnoughStake);
        }
        self.notes[incumbent].location = None;
        self.notes[challenger].location = Some(node);
        self.nodes[node].attached_note = Some(challenger);
        self.nodes[node].stake = stake;
        proof {
            self.lemma_occupancy_wf(*old(self));
        }
        Ok(())
    }

    /// A change of occupancy keeps the invariant when it leaves every node and
    /// note it touches consistent with each other.
    pub proof fn lemma_occupancy_wf(self, other: Index)
        requires
            other.wf(),
            self.capacity == other.capacity,
            self.forests == other.forests,
            self.trees == other.trees,
            self.stakes == other.stakes,
            self.bribes == other.bribes,
            self.nodes@.len() == other.nodes@.len(),
            self.notes@.len() == other.notes@.len(),
            forall|j: int|
                0 <= j < self.nodes@.len() ==> same_node_shape(
                    #[trigger] self.nodes@[j],
                    other.nodes@[j],
                ),
            forall|j: int|
                0 <= j < self.notes@.len() ==> same_note_content(
                    #[trigger] self.notes@[j],
                    other.notes@[j],
                ),
            self.wf_attachment(),
        ensures
            self.wf(),
    {
        assert forall|t: int| 0 <= t < self.notes@.len() implies (#[trigger] self.notes@[t]).stake
            == stake_sum(self.stakes@, t) by {
            assert(same_note_content(self.notes@[t], other.notes@[t]));
            assert(other.notes@[t].stake == stake_sum(other.stakes@, t));
        }
        assert forall|j: int| 0 <= j < self.notes@.len() implies (#[trigger] self.notes@[j]).forest
            == other.notes@[j].forest && self.notes@[j].id == other.notes@[j].id by {
            assert(same_note_content(self.notes@[j], other.notes@[j]));
        }
        self.lemma_shape_wf(other);
    }

    /// A change that keeps the shape of every node, the forest of every note
    /// and the other tables keeps the invariant once attachments and stakes are consistent.
    pub proof fn lemma_shape_wf(self, other: Index)
        requires
            other.wf(),
            self.capacity == other.capacity,
            self.forests == other.forests,
            self.trees == other.trees,
            self.bribes == other.bribes,
            self.nodes@.len() == other.nodes@.len(),
            self.notes@.len() == other.notes@.len(),
            forall|j: int|
                0 <= j < self.nodes@.len() ==> same_node_shape(
                    #[trigger] self.nodes@[j],
                    other.nodes@[j],
                ),
            forall|j: int|
                0 <= j < self.notes@.len() ==> (#[trigger] self.notes@[j]).forest
                    == other.notes@[j].forest && self.notes@[j].id == other.notes@[j].id,
            self.wf_attachment(),
            self.wf_stakes(),
        ensures
            self.wf(),
    {
        assert forall|a: int, b: int|
            0 <= a < self.notes@.len() && 0 <= b < self.notes@.len() && a != b && (
            #[trigger] self.notes@[a]).forest == (#[trigger] self.notes@[b]).forest
                implies self.notes@[a].id != self.notes@[b].id by {
            assert(other.notes@[a].forest == other.notes@[b].forest);
        }
        assert forall|i: int| 0 <= i < other.nodes@.len() implies (#[trigger] self.nodes@[i]).parent
            == other.nodes@[i].parent && self.nodes@[i].tag@ == other.nodes@[i].tag@ by {
            assert(same_node_shape(self.nodes@[i], other.nodes@[i]));
        }
        self.lemma_wf_tags_frame(other);
        self.lemma_excl_frame(other);
        assert forall|i: int| 0 <= i < self.trees@.len() implies {
            &&& #[trigger] self.trees@[i].forest < self.forests@.len()
            &&& self.node_ok(self.trees@[i].root_node as int)
            &&& self.nodes@[self.trees@[i].root_node as int].tree == i
            &&& self.nodes@[self.trees@[i].root_node as int].parent is None
        } by {
            assert(other.trees@[i].forest < other.forests@.len());
            let rn = other.trees@[i].root_node as int;
            assert(same_node_shape(self.nodes@[rn], other.nodes@[rn]));
        }
        assert forall|a: int, b: int|
            0 <= a < self.nodes@.len() && 0 <= b < self.nodes@.len() && a != b
                && (#[trigger] self.nodes@[a]).parent is Some && self.nodes@[a].parent == (
            #[trigger] self.nodes@[b]).parent implies self.nodes@[a].tag@ != self.nodes@[b].tag@ by {
            assert(same_node_shape(self.nodes@[a], other.nodes@[a]));
            assert(same_node_shape(self.nodes@[b], other.nodes@[b]));
            assert(other.nodes@[a].tag@ != other.nodes@[b].tag@);
        }
        assert forall|n: int| 0 <= n < self.nodes@.len() implies {
            &&& (#[trigger] self.nodes@[n]).tree < self.trees@.len()
            &&& match self.nodes@[n].parent {
                Some(p) => p < n && self.nodes@[p as int].tree == self.nodes@[n].tree,
                None => self.trees@[self.nodes@[n].tree as int].root_node == n,
            }
        } by {
            assert(same_node_shape(self.nodes@[n], other.nodes@[n]));
            assert(other.nodes@[n].tree < other.trees@.len());
            if let Some(p) = other.nodes@[n].parent {
                assert(same_node_shape(self.nodes@[p as int], other.nodes@[p as int]));
            }
        }
        assert forall|n: int| 0 <= n < self.nodes@.len() implies {
            &&& (#[trigger] self.nodes@[n]).children@.len() <= self.capacity
            &&& forall|k: int|
                0 <= k < self.nodes@[n].children@.len() ==> {
                    &&& self.node_ok(#[trigger] self.nodes@[n].children@[k] as int)
                    &&& self.nodes@[self.nodes@[n].children@[k] as int].parent == Some(n as usize)
                }
            &&& forall|k1: int, k2: int|
                0 <= k1 < self.nodes@[n].children@.len() && 0 <= k2
                    < self.nodes@[n].children@.len() && k1 != k2
                    ==> #[trigger] self.nodes@[n].children@[k1]
                    != #[trigger] self.nodes@[n].children@[k2]
        } by {
            assert(same_node_shape(self.nodes@[n], other.nodes@[n]));
            assert(other.nodes@[n].children@.len() <= other.capacity);
            assert forall|k: int| 0 <= k < self.nodes@[n].children@.len() implies {
                &&& self.node_ok(#[trigger] self.nodes@[n].children@[k] as int)
                &&& self.nodes@[self.nodes@[n].children@[k] as int].parent == Some(n as usize)
            } by {
                let c = other.nodes@[n].children@[k] as int;
                assert(other.node_ok(c));
                assert(same_node_shape(self.nodes@[c], other.nodes@[c]));
            }
        }
        assert forall|b: int| 0 <= b < self.bribes@.len() implies self.node_ok(
            (#[trigger] self.bribes@[b]).node as int,
        ) by {
            assert(other.node_ok(other.bribes@[b].node as int));
        }
    }
}

} // verus!
