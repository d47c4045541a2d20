use vstd::prelude::*;
use vstd::string::StringSliceAdditionalSpecFns;
use crate::errors::DipErrors;
use crate::notes::same_node_shape;
use crate::index::{
    Account, Authority, Forest, Index, Node, Transfer, Tree, tags_equal, MAX_TAG_LENGTH,
};

verus! {

impl Index {
    /// All tables but `nodes` are as in `other`.
    pub open spec fn same_but_nodes(self, other: Index) -> bool {
        &&& self.capacity == other.capacity
        &&& self.forests == other.forests
        &&& self.trees == other.trees
        &&& self.notes == other.notes
        &&& self.stakes == other.stakes
        &&& self.bribes == other.bribes
    }

    /// The full tag set of node `n`: the tags introduced along its parent chain.
    pub open spec fn tag_set(self, n: int) -> Set<Seq<u8>>
        decreases n,
    {
        match self.nodes@[n].parent {
            Some(p) => if 0 <= p < n {
                self.tag_set(p as int).insert(self.nodes@[n].tag@)
            } else {
                set![self.nodes@[n].tag@]
            },
            None => set![self.nodes@[n].tag@],
        }
    }

    /// The tag set of node `n` depends only on the parents and tags of the
    /// nodes up to `n`.
    pub proof fn lemma_tag_set_frame(self, other: Index, n: int)
        requires
            0 <= n < self.nodes@.len(),
            n < other.nodes@.len(),
            forall|i: int|
                0 <= i <= n ==> (#[trigger] self.nodes@[i]).parent == other.nodes@[i].parent
                    && self.nodes@[i].tag@ == other.nodes@[i].tag@,
        ensures
            self.tag_set(n) == other.tag_set(n),
        decreases n,
    {
        if let Some(p) = self.nodes@[n].parent {
            if 0 <= p < n {
                self.lemma_tag_set_frame(other, p as int);
            }
        }
    }

    /// Nodes that keep their parents and tags keep the tag invariant.
    pub proof fn lemma_wf_tags_frame(self, other: Index)
        requires
            other.wf_tags(),
            other.wf_nodes(),
            other.nodes@.len() <= self.nodes@.len(),
            forall|i: int|
                0 <= i < other.nodes@.len() ==> (#[trigger] self.nodes@[i]).parent
                    == other.nodes@[i].parent && self.nodes@[i].tag@ == other.nodes@[i].tag@,
            forall|i: int|
                other.nodes@.len() <= i < self.nodes@.len() && (#[trigger] self.nodes@[i]).parent is Some
                    ==> !self.tag_set(self.nodes@[i].parent->Some_0 as int).contains(
                    self.nodes@[i].tag@,
                ),
        ensures
            self.wf_tags(),
    {
        assert forall|n: int|
            0 <= n < self.nodes@.len() && (#[trigger] self.nodes@[n]).parent is Some implies !self.tag_set(
            self.nodes@[n].parent->Some_0 as int,
        ).contains(self.nodes@[n].tag@) by {
            if n < other.nodes@.len() {
                assert(other.nodes@[n].parent is Some);
                let p = other.nodes@[n].parent->Some_0 as int;
                assert(p < n);
                assert forall|i: int| 0 <= i <= p implies (#[trigger] self.nodes@[i]).parent
                    == other.nodes@[i].parent && self.nodes@[i].tag@ == other.nodes@[i].tag@ by {}
                self.lemma_tag_set_frame(other, p);
            }
        }
    }

    /// The tags excluded below `p` depend only on the shapes of the nodes.
    pub proof fn lemma_not_tag_set_frame(self, other: Index, p: int)
        requires
            other.wf_nodes(),
            other.wf_children(),
            0 <= p < other.nodes@.len(),
            other.nodes@.len() <= self.nodes@.len(),
            forall|i: int|
                0 <= i < other.nodes@.len() ==> same_node_shape(
                    #[trigger] self.nodes@[i],
                    other.nodes@[i],
                ),
        ensures
            self.not_tag_set(p) == other.not_tag_set(p),
    {
        assert(same_node_shape(self.nodes@[p], other.nodes@[p]));
        if let Some(pp) = other.nodes@[p].parent {
            let pp = pp as int;
            assert(same_node_shape(self.nodes@[pp], other.nodes@[pp]));
            assert forall|k: int| 0 <= k < other.nodes@[pp].children@.len() implies #[trigger] self.child_tag(
                pp,
                k,
            ) == other.child_tag(pp, k) by {
                let c = other.nodes@[pp].children@[k] as int;
                assert(other.node_ok(c));
                assert(same_node_shape(self.nodes@[c], other.nodes@[c]));
            }
            assert(self.is_attached(p) == other.is_attached(p));
            if other.is_attached(p) {
                assert forall|t: Seq<u8>| #[trigger] self.not_tag_set(p).contains(t) == other.not_tag_set(
                    p,
                ).contains(t) by {
                    if self.not_tag_set(p).contains(t) {
                        let k = choose|k: int|
                            0 <= k < self.nodes@[pp].children@.len() && self.nodes@[pp].children@[k]
                                != p as usize && t == #[trigger] self.child_tag(pp, k);
                        assert(other.child_tag(pp, k) == t);
                    }
                    if other.not_tag_set(p).contains(t) {
                        let k = choose|k: int|
                            0 <= k < other.nodes@[pp].children@.len() && other.nodes@[pp].children@[k]
                                != p as usize && t == #[trigger] other.child_tag(pp, k);
                        assert(self.child_tag(pp, k) == t);
                    }
                }
            }
            assert(self.not_tag_set(p) =~= other.not_tag_set(p));
        }
    }

    /// Nodes that keep their shapes keep the exclusion invariant, as do new
    /// nodes whose tags are not excluded below their parents.
    pub proof fn lemma_excl_frame(self, other: Index)
        requires
            other.wf(),
            other.nodes@.len() <= self.nodes@.len(),
            forall|i: int|
                0 <= i < other.nodes@.len() ==> same_node_shape(
                    #[trigger] self.nodes@[i],
                    other.nodes@[i],
                ),
            forall|i: int|
                other.nodes@.len() <= i < self.nodes@.len() && (#[trigger] self.nodes@[i]).parent is Some
                    ==> !self.not_tag_set(self.nodes@[i].parent->Some_0 as int).contains(
                    self.nodes@[i].tag@,
                ),
        ensures
            self.wf_excl(),
    {
        assert forall|n: int|
            0 <= n < self.nodes@.len() && (#[trigger] self.nodes@[n]).parent is Some implies !self.not_tag_set(
            self.nodes@[n].parent->Some_0 as int,
        ).contains(self.nodes@[n].tag@) by {
            if n < other.nodes@.len() {
                assert(same_node_shape(self.nodes@[n], other.nodes@[n]));
                assert(other.nodes@[n].parent is Some);
                self.lemma_not_tag_set_frame(other, self.nodes@[n].parent->Some_0 as int);
            }
        }
    }

    /// A change of the children of `r` keeps the exclusion invariant when no
    /// node below one child of `r` carries the tag of another.
    pub proof fn lemma_excl_children_change(self, other: Index, r: int)
        requires
            other.wf(),
            0 <= r < other.nodes@.len(),
            self.nodes@.len() == other.nodes@.len(),
            forall|i: int|
                0 <= i < self.nodes@.len() && i != r ==> #[trigger] self.nodes@[i] == other.nodes@[i],
            self.nodes@[r].parent == other.nodes@[r].parent,
            self.nodes@[r].tag == other.nodes@[r].tag,
            forall|n: int, j: int, k: int|
                #![trigger self.nodes@[n], self.nodes@[r].children@[j], self.child_tag(r, k)]
                0 <= n < self.nodes@.len() && 0 <= j < self.nodes@[r].children@.len() && 0 <= k
                    < self.nodes@[r].children@.len() && self.nodes@[r].children@[j]
                    != self.nodes@[r].children@[k] && self.nodes@[n].parent == Some(
                    self.nodes@[r].children@[j],
                ) ==> self.nodes@[n].tag@ != self.child_tag(r, k),
        ensures
            self.wf_excl(),
    {
        assert forall|n: int|
            0 <= n < self.nodes@.len() && (#[trigger] self.nodes@[n]).parent is Some implies !self.not_tag_set(
            self.nodes@[n].parent->Some_0 as int,
        ).contains(self.nodes@[n].tag@) by {
            let p = self.nodes@[n].parent->Some_0 as int;
            let tn = self.nodes@[n].tag@;
            assert(self.nodes@[n].parent == other.nodes@[n].parent);
            assert(self.nodes@[n].tag == other.nodes@[n].tag);
            assert(p < n);
            if self.not_tag_set(p).contains(tn) {
                assert(self.is_attached(p));
                assert(self.nodes@[p].parent == other.nodes@[p].parent);
                let pp = self.nodes@[p].parent->Some_0 as int;
                let k = choose|k: int|
                    0 <= k < self.nodes@[pp].children@.len() && self.nodes@[pp].children@[k]
                        != p as usize && tn == #[trigger] self.child_tag(pp, k);
                if pp == r {
                    let j = choose|j: int|
                        0 <= j < self.nodes@[r].children@.len() && self.nodes@[r].children@[j]
                            == p as usize;
                    assert(self.nodes@[n].tag@ != self.child_tag(r, k));
                } else {
                    assert(self.nodes@[pp] == other.nodes@[pp]);
                    let c = self.nodes@[pp].children@[k] as int;
                    assert(other.node_ok(c));
                    assert(self.nodes@[c].tag == other.nodes@[c].tag);
                    assert(other.child_tag(pp, k) == tn);
                    assert(other.is_attached(p));
                    assert(other.not_tag_set(p).contains(tn));
                    assert(other.nodes@[n].parent is Some);
                }
            }
        }
    }

    /// Some child of `parent` other than `leaving` has a node below it with
    /// the tag of `newcomer`, or `newcomer` has a node below it with the tag of
    /// such a child.
    pub open spec fn siblings_clash(self, parent: int, newcomer: int, leaving: int) -> bool {
        exists|k: int|
            0 <= k < self.nodes@[parent].children@.len() && #[trigger] self.clash_at(
                parent,
                newcomer,
                leaving,
                k,
            )
    }

    /// The `k`-th child of `parent` is not `leaving` and clashes with `newcomer`.
    pub open spec fn clash_at(self, parent: int, newcomer: int, leaving: int, k: int) -> bool {
        &&& self.nodes@[parent].children@[k] != leaving as usize
        &&& self.has_node(self.nodes@[parent].children@[k] as int, self.nodes@[newcomer].tag@)
            || self.has_node(newcomer, self.child_tag(parent, k))
    }

    /// Whether attaching `newcomer` below `parent` in place of `leaving` would
    /// exclude a tag that a node below a child already introduces.
    pub fn find_clash(&self, parent: usize, newcomer: usize, leaving: usize) -> (r: bool)
        requires
            self.wf(),
            parent < self.nodes@.len(),
            newcomer < self.nodes@.len(),
        ensures
            r == self.siblings_clash(parent as int, newcomer as int, leaving as int),
    {
        let children = &self.nodes[parent].children;
        let mut k: usize = 0;
        while k < children.len()
            invariant
                self.wf(),
                parent < self.nodes@.len(),
                newcomer < self.nodes@.len(),
                0 <= k <= children@.len(),
                children@ == self.nodes@[parent as int].children@,
                forall|j: int|
                    0 <= j < k ==> !#[trigger] self.clash_at(
                        parent as int,
                        newcomer as int,
                        leaving as int,
                        j,
                    ),
            decreases children@.len() - k,
        {
            let c = children[k];
            assert(self.node_ok(c as int));
            assert(self.child_tag(parent as int, k as int) == self.nodes@[c as int].tag@);
            if c != leaving {
                let below_sibling = self.find_node(c, &self.nodes[newcomer].tag).is_some();
                let below_newcomer = self.find_node(newcomer, &self.nodes[c].tag).is_some();
                if below_sibling || below_newcomer {
                    assert(self.clash_at(parent as int, newcomer as int, leaving as int, k as int));
                    return true;
                }
            }
            assert(!self.clash_at(parent as int, newcomer as int, leaving as int, k as int));
            k = k + 1;
        }
        false
    }

    /// Whether `tag` is in the tag set of node `n`.
    pub fn in_tag_set(&self, n: usize, tag: &Vec<u8>) -> (r: bool)
        requires
            self.wf(),
            n < self.nodes@.len(),
        ensures
            r == self.tag_set(n as int).contains(tag@),
    {
        let tags = self.tags_of(n);
        let mut k: usize = 0;
        while k < tags.len()
            invariant
                0 <= k <= tags@.len(),
                forall|j: int| 0 <= j < k ==> tags@[j]@ != tag@,
                forall|j: int|
                    0 <= j < tags@.len() ==> self.tag_set(n as int).contains(#[trigger] tags@[j]@),
                forall|t: Seq<u8>| #[trigger] self.tag_set(n as int).contains(t) ==> listed(tags@, t),
            decreases tags@.len() - k,
        {
            if tags_equal(&tags[k], tag) {
                assert(self.tag_set(n as int).contains(tags@[k as int]@));
                return true;
            }
            k = k + 1;
        }
        proof {
            if self.tag_set(n as int).contains(tag@) {
                assert(listed(tags@, tag@));
            }
        }
        false
    }

    /// Node `n` is among the attached children of its parent.
    pub open spec fn is_attached(self, n: int) -> bool {
        match self.nodes@[n].parent {
            Some(p) => self.nodes@[p as int].children@.contains(n as usize),
            None => false,
        }
    }

    /// The tags excluded below node `n`: those its attached siblings introduce.
    pub open spec fn not_tag_set(self, n: int) -> Set<Seq<u8>> {
        if self.is_attached(n) {
            let p = self.nodes@[n].parent->Some_0 as int;
            Set::new(
                |t: Seq<u8>|
                    exists|k: int|
                        0 <= k < self.nodes@[p].children@.len() && self.nodes@[p].children@[k]
                            != n as usize && t == #[trigger] self.child_tag(p, k),
            )
        } else {
            Set::empty()
        }
    }

    /// Some node of the tree other than the root has parent `p` and tag `tag`.
    pub open spec fn has_node(self, p: int, tag: Seq<u8>) -> bool {
        exists|i: int|
            0 <= i < self.nodes@.len() && self.nodes@[i].parent == Some(p as usize)
                && #[trigger] self.nodes@[i].tag@ == tag
    }

    /// Some attached child of `p` introduces `tag`.
    pub open spec fn has_child_tag(self, p: int, tag: Seq<u8>) -> bool {
        exists|k: int| 0 <= k < self.nodes@[p].children@.len() && #[trigger] self.child_tag(p, k) == tag
    }

    /// Some tree of forest `f` has tag `tag`.
    pub open spec fn has_tree(self, f: int, tag: Seq<u8>) -> bool {
        exists|i: int|
            0 <= i < self.trees@.len() && self.trees@[i].forest == f && #[trigger] self.trees@[i].tag@
                == tag
    }

    /// Some forest has id `id`.
    pub open spec fn has_forest(self, id: u64) -> bool {
        exists|i: int| 0 <= i < self.forests@.len() && #[trigger] self.forests@[i].id == id
    }

    /// The forest with id `id`, if any.
    pub fn find_forest(&self, id: u64) -> (r: Option<usize>)
        ensures
            r is None <==> !self.has_forest(id),
            r matches Some(i) ==> i < self.forests@.len() && self.forests@[i as int].id == id,
    {
        let mut i: usize = 0;
        while i < self.forests.len()
            invariant
                0 <= i <= self.forests@.len(),
                forall|j: int| 0 <= j < i ==> self.forests@[j].id != id,
            decreases self.forests@.len() - i,
        {
            if self.forests[i].id == id {
                return Some(i);
            }
            i = i + 1;
        }
        None
    }

    /// Creates a forest with the given id, administrator, tree-creation fee and voting token.
    pub fn create_forest(&mut self, id: u64, admin: u64, tree_creation_fee: u64, vote_mint: u64) -> (r:
        Result<usize, DipErrors>)
        requires
            old(self).wf(),
        ensures
            final(self).wf(),
            old(self).has_forest(id) ==> r == Err::<usize, DipErrors>(DipErrors::AlreadyExists),
            !old(self).has_forest(id) ==> {
                &&& r == Ok::<usize, DipErrors>(old(self).forests@.len() as usize)
                &&& final(self).forests@ == old(self).forests@.push(
                    (Forest { id, admin, tree_creation_fee, vote_mint }),
                )
                &&& final(self).capacity == old(self).capacity
                &&& final(self).trees == old(self).trees
                &&& final(self).nodes == old(self).nodes
                &&& final(self).notes == old(self).notes
                &&& final(self).stakes == old(self).stakes
                &&& final(self).bribes == old(self).bribes
            },
            r is Err ==> *final(self) == *old(self),
    {
        if self.find_forest(id).is_some() {
            return Err(DipErrors::AlreadyExists);
        }
        let r = self.forests.len();
        self.forests.push(Forest { id, admin, tree_creation_fee, vote_mint });
        assert(self.wf_trees());
        assert(self.wf_nodes());
        assert(self.wf_children());
        assert(self.wf_attachment());
        assert(self.wf_stakes());
        proof {
            self.lemma_wf_tags_frame(*old(self));
            assert forall|i: int| 0 <= i < old(self).nodes@.len() implies same_node_shape(
                #[trigger] self.nodes@[i],
                old(self).nodes@[i],
            ) by {}
            self.lemma_excl_frame(*old(self));
        }
        Ok(r)
    }

    /// Lets the administrator `signer` of `forest` set a new administrator and fee.
    pub fn set_forest(&mut self, forest: usize, signer: u64, admin: u64, tree_creation_fee: u64) -> (r:
        Result<(), DipErrors>)
        requires
            old(self).wf(),
        ensures
            final(self).wf(),
            forest >= old(self).forests@.len() ==> r == Err::<(), DipErrors>(DipErrors::InvalidNode),
            forest < old(self).forests@.len() && old(self).forests@[forest as int].admin != signer
                ==> r == Err::<(), DipErrors>(DipErrors::Unauthorized),
            forest < old(self).forests@.len() && old(self).forests@[forest as int].admin == signer
                ==> {
                &&& r is Ok
                &&& final(self).forests@ == old(self).forests@.update(
                    forest as int,
                    (Forest { admin, tree_creation_fee, ..old(self).forests@[forest as int] }),
                )
                &&& final(self).capacity == old(self).capacity
                &&& final(self).trees == old(self).trees
                &&& final(self).nodes == old(self).nodes
                &&& final(self).notes == old(self).notes
                &&& final(self).stakes == old(self).stakes
                &&& final(self).bribes == old(self).bribes
            },
            r is Err ==> *final(self) == *old(self),
    {
        if forest >= self.forests.len() {
            return Err(DipErrors::InvalidNode);
        }
        if self.forests[forest].admin != signer {
            return Err(DipErrors::Unauthorized);
        }
        self.forests[forest].admin = admin;
        self.forests[forest].tree_creation_fee = tree_creation_fee;
        assert(self.forests@.len() == old(self).forests@.len());
        assert(self.trees == old(self).trees);
        assert(self.nodes == old(self).nodes);
        assert(self.wf_trees());
        assert(self.wf_attachment());
        proof {
            self.lemma_wf_tags_frame(*old(self));
            assert forall|i: int| 0 <= i < old(self).nodes@.len() implies same_node_shape(
                #[trigger] self.nodes@[i],
                old(self).nodes@[i],
            ) by {}
            self.lemma_excl_frame(*old(self));
        }
        Ok(())
    }

    /// The tree of forest `f` with tag `tag`, if any.
    pub fn find_tree(&self, f: usize, tag: &Vec<u8>) -> (r: Option<usize>)
        ensures
            r is None <==> !self.has_tree(f as int, tag@),
            r matches Some(i) ==> i < self.trees@.len() && self.trees@[i as int].forest == f
                && self.trees@[i as int].tag@ == tag@,
    {
        let mut i: usize = 0;
        while i < self.trees.len()
            invariant
                0 <= i <= self.trees@.len(),
                forall|j: int|
                    0 <= j < i ==> !(self.trees@[j].forest == f && self.trees@[j].tag@ == tag@),
            decreases self.trees@.len() - i,
        {
            if self.trees[i].forest == f && tags_equal(&self.trees[i].tag, tag) {
                return Some(i);
            }
            i = i + 1;
        }
        None
    }

    /// Creates a tree of `forest` with tag `tag` and its root node, which carries
    /// the same tag. The payer pays the forest's tree-creation fee to its
    /// administrator: the transfer is returned with the new tree.
    pub fn create_tree(&mut self, forest: usize, payer: u64, tag: &str) -> (r: Result<
        (usize, Transfer),
        DipErrors,
    >)
        requires
            old(self).wf(),
        ensures
            final(self).wf(),
            forest >= old(self).forests@.len() ==> r == Err::<(usize, Transfer), DipErrors>(
                DipErrors::InvalidNode,
            ),
            forest < old(self).forests@.len() && tag.spec_bytes().len() >= MAX_TAG_LENGTH ==> r
                == Err::<(usize, Transfer), DipErrors>(DipErrors::StringTooLong),
            forest < old(self).forests@.len() && tag.spec_bytes().len() < MAX_TAG_LENGTH
                && old(self).has_tree(forest as int, tag.spec_bytes()) ==> r == Err::<
                (usize, Transfer),
                DipErrors,
            >(DipErrors::AlreadyExists),
            forest < old(self).forests@.len() && tag.spec_bytes().len() < MAX_TAG_LENGTH
                && !old(self).has_tree(forest as int, tag.spec_bytes()) ==> {
                let t = old(self).trees@.len() as usize;
                let n = old(self).nodes@.len() as usize;
                &&& r == Ok::<(usize, Transfer), DipErrors>(
                    (
                        t,
                        Transfer {
                            from: Account::Wallet(payer),
                            to: Account::Wallet(old(self).forests@[forest as int].admin),
                            amount: old(self).forests@[forest as int].tree_creation_fee,
                            authority: Authority::Signer(payer),
                        },
                    ),
                )
                &&& final(self).trees@.len() == t + 1
                &&& final(self).trees@.drop_last() == old(self).trees@
                &&& final(self).trees@[t as int].forest == forest
                &&& final(self).trees@[t as int].root_node == n
                &&& final(self).trees@[t as int].tag@ == tag.spec_bytes()
                &&& final(self).nodes@.len() == n + 1
                &&& final(self).nodes@.drop_last() == old(self).nodes@
                &&& final(self).nodes@[n as int].tree == t
                &&& final(self).nodes@[n as int].parent is None
                &&& final(self).nodes@[n as int].tag@ == tag.spec_bytes()
                &&& final(self).nodes@[n as int].attached_note is None
                &&& final(self).nodes@[n as int].stake == 0
                &&& final(self).nodes@[n as int].children@.len() == 0
                &&& final(self).capacity == old(self).capacity
                &&& final(self).forests == old(self).forests
                &&& final(self).notes == old(self).notes
                &&& final(self).stakes == old(self).stakes
                &&& final(self).bribes == old(self).bribes
            },
            r is Err ==> *final(self) == *old(self),
    {
        if forest >= self.forests.len() {
            return Err(DipErrors::InvalidNode);
        }
        let bytes = tag.as_bytes_vec();
        if bytes.len() >= MAX_TAG_LENGTH {
            return Err(DipErrors::StringTooLong);
        }
        if self.find_tree(forest, &bytes).is_some() {
            return Err(DipErrors::AlreadyExists);
        }
        let t = self.trees.len();
        let n = self.nodes.len();
        let root_tag = bytes.clone();
        self.trees.push(Tree { forest, root_node: n, tag: bytes });
        self.nodes.push(
            Node {
                tree: t,
                parent: None,
                tag: root_tag,
                attached_note: None,
                stake: 0,
                children: Vec::new(),
            },
        );
        assert(self.nodes@.drop_last() == old(self).nodes@);
        assert(self.trees@.drop_last() == old(self).trees@);
        assert forall|i: int| 0 <= i < self.trees@.len() implies {
            &&& #[trigger] self.trees@[i].forest < self.forests@.len()
            &&& self.node_ok(self.trees@[i].root_node as int)
            &&& self.nodes@[self.trees@[i].root_node as int].tree == i
            &&& self.nodes@[self.trees@[i].root_node as int].parent is None
        } by {
            if i < t as int {
                assert(self.trees@[i] == old(self).trees@[i]);
                assert(old(self).trees@[i].forest < old(self).forests@.len());
                let rn = old(self).trees@[i].root_node as int;
                assert(self.nodes@[rn] == old(self).nodes@[rn]);
            }
        }
        assert(self.wf_trees());
        assert(self.wf_nodes());
        assert(self.wf_children());
        assert(self.wf_attachment());
        assert(self.wf_stakes());
        assert(self.wf_bribes());
        let f = &self.forests[forest];
        proof {
            self.lemma_wf_tags_frame(*old(self));
            assert forall|i: int| 0 <= i < old(self).nodes@.len() implies same_node_shape(
                #[trigger] self.nodes@[i],
                old(self).nodes@[i],
            ) by {}
            self.lemma_excl_frame(*old(self));
        }
        Ok(
            (
                t,
                Transfer {
                    from: Account::Wallet(payer),
                    to: Account::Wallet(f.admin),
                    amount: f.tree_creation_fee,
                    authority: Authority::Signer(payer),
                },
            ),
        )
    }

    /// The node with parent `p` and tag `tag`, if any.
    pub fn find_node(&self, p: usize, tag: &Vec<u8>) -> (r: Option<usize>)
        ensures
            r is None <==> !self.has_node(p as int, tag@),
            r matches Some(i) ==> i < self.nodes@.len() && self.nodes@[i as int].parent == Some(p)
                && self.nodes@[i as int].tag@ == tag@,
    {
        let mut i: usize = 0;
        while i < self.nodes.len()
            invariant
                0 <= i <= self.nodes@.len(),
                forall|j: int|
                    0 <= j < i ==> !(self.nodes@[j].parent == Some(p) && self.nodes@[j].tag@
                        == tag@),
            decreases self.nodes@.len() - i,
        {
            if self.nodes[i].parent == Some(p) && tags_equal(&self.nodes[i].tag, tag) {
                return Some(i);
            }
            i = i + 1;
        }
        None
    }

    /// The position of `n` among the attached children of `p`, if it is one.
    pub fn child_position(&self, p: usize, n: usize) -> (r: Option<usize>)
        requires
            p < self.nodes@.len(),
        ensures
            r is None <==> !self.nodes@[p as int].children@.contains(n),
            r matches Some(k) ==> k < self.nodes@[p as int].children@.len()
                && self.nodes@[p as int].children@[k as int] == n,
    {
        let children = &self.nodes[p].children;
        let mut k: usize = 0;
        while k < children.len()
            invariant
                0 <= k <= children@.len(),
                children@ == self.nodes@[p as int].children@,
                forall|j: int| 0 <= j < k ==> children@[j] != n,
            decreases children@.len() - k,
        {
            if children[k] == n {
                return Some(k);
            }
            k = k + 1;
        }
        None
    }

    /// Whether an attached child of `p` introduces `tag`.
    pub fn child_tag_taken(&self, p: usize, tag: &Vec<u8>) -> (r: bool)
        requires
            self.wf(),
            p < self.nodes@.len(),
        ensures
            r == self.has_child_tag(p as int, tag@),
    {
        let children = &self.nodes[p].children;
        let mut k: usize = 0;
        while k < children.len()
            invariant
                self.wf(),
                p < self.nodes@.len(),
                0 <= k <= children@.len(),
                children@ == self.nodes@[p as int].children@,
                forall|j: int| 0 <= j < k ==> self.child_tag(p as int, j) != tag@,
            decreases children@.len() - k,
        {
            assert(self.node_ok(children@[k as int] as int));
            if tags_equal(&self.nodes[children[k]].tag, tag) {
                assert(self.child_tag(p as int, k as int) == tag@);
                return true;
            }
            k = k + 1;
        }
        false
    }

    /// Whether `tag` is excluded below node `n`.
    pub fn in_not_tag_set(&self, n: usize, tag: &Vec<u8>) -> (r: bool)
        requires
            self.wf(),
            n < self.nodes@.len(),
        ensures
            r == self.not_tag_set(n as int).contains(tag@),
    {
        let p = match self.nodes[n].parent {
            Some(p) => p,
            None => return false,
        };
        assert(p < n);
        if self.child_position(p, n).is_none() {
            return false;
        }
        let children = &self.nodes[p].children;
        let mut k: usize = 0;
        while k < children.len()
            invariant
                self.wf(),
                p < self.nodes@.len(),
                self.nodes@[n as int].parent == Some(p),
                self.is_attached(n as int),
                0 <= k <= children@.len(),
                children@ == self.nodes@[p as int].children@,
                forall|j: int|
                    0 <= j < k ==> !(children@[j] != n && self.child_tag(p as int, j) == tag@),
            decreases children@.len() - k,
        {
            assert(self.node_ok(children@[k as int] as int));
            if children[k] != n && tags_equal(&self.nodes[children[k]].tag, tag) {
                assert(self.child_tag(p as int, k as int) == tag@);
                assert(self.not_tag_set(n as int).contains(tag@));
                return true;
            }
            k = k + 1;
        }
        false
    }

    /// Creates a node below `parent` that introduces `tag`. It is not attached yet.
    pub fn create_node(&mut self, parent: usize, tag: &str) -> (r: Result<usize, DipErrors>)
        requires
            old(self).wf(),
        ensures
            final(self).wf(),
            parent >= old(self).nodes@.len() ==> r == Err::<usize, DipErrors>(DipErrors::InvalidNode),
            parent < old(self).nodes@.len() && tag.spec_bytes().len() >= MAX_TAG_LENGTH ==> r
                == Err::<usize, DipErrors>(DipErrors::StringTooLong),
            parent < old(self).nodes@.len() && tag.spec_bytes().len() < MAX_TAG_LENGTH
                && (old(self).not_tag_set(parent as int).contains(tag.spec_bytes()) || old(
                self,
            ).tag_set(parent as int).contains(tag.spec_bytes())) ==> r == Err::<usize, DipErrors>(
                DipErrors::TagsMismatch,
            ),
            parent < old(self).nodes@.len() && tag.spec_bytes().len() < MAX_TAG_LENGTH
                && !old(self).not_tag_set(parent as int).contains(tag.spec_bytes()) && !old(
                self,
            ).tag_set(parent as int).contains(tag.spec_bytes()) && old(self).has_node(
                parent as int,
                tag.spec_bytes(),
            ) ==> r == Err::<usize, DipErrors>(
                DipErrors::AlreadyExists,
            ),
            parent < old(self).nodes@.len() && tag.spec_bytes().len() < MAX_TAG_LENGTH
                && !old(self).not_tag_set(parent as int).contains(tag.spec_bytes()) && !old(
                self,
            ).tag_set(parent as int).contains(tag.spec_bytes()) && !old(self).has_node(
                parent as int,
                tag.spec_bytes(),
            ) ==> {
                let n = old(self).nodes@.len() as usize;
                &&& r == Ok::<usize, DipErrors>(n)
                &&& final(self).nodes@.len() == n + 1
                &&& final(self).nodes@.drop_last() == old(self).nodes@
                &&& final(self).nodes@[n as int].tree == old(self).nodes@[parent as int].tree
                &&& final(self).nodes@[n as int].parent == Some(parent)
                &&& final(self).nodes@[n as int].tag@ == tag.spec_bytes()
                &&& final(self).nodes@[n as int].attached_note is None
                &&& final(self).nodes@[n as int].stake == 0
                &&& final(self).nodes@[n as int].children@.len() == 0
                &&& final(self).same_but_nodes(*old(self))
            },
            r is Err ==> *final(self) == *old(self),
    {
        if parent >= self.nodes.len() {
            return Err(DipErrors::InvalidNode);
        }
        let bytes = tag.as_bytes_vec();
        if bytes.len() >= MAX_TAG_LENGTH {
            return Err(DipErrors::StringTooLong);
        }
        if self.in_not_tag_set(parent, &bytes) || self.in_tag_set(parent, &bytes) {
            return Err(DipErrors::TagsMismatch);
        }
        if self.find_node(parent, &bytes).is_some() {
            return Err(DipErrors::AlreadyExists);
        }
        let n = self.nodes.len();
        let tree = self.nodes[parent].tree;
        self.nodes.push(
            Node {
                tree,
                parent: Some(parent),
                tag: bytes,
                attached_note: None,
                stake: 0,
                children: Vec::new(),
            },
        );
        assert(self.nodes@.drop_last() == old(self).nodes@);
        assert forall|a: int, b: int|
            0 <= a < self.nodes@.len() && 0 <= b < self.nodes@.len() && a != b
                && (#[trigger] self.nodes@[a]).parent is Some && self.nodes@[a].parent == (
            #[trigger] self.nodes@[b]).parent implies self.nodes@[a].tag@ != self.nodes@[b].tag@ by {
            if a == n as int {
                assert(self.nodes@[b] == old(self).nodes@[b]);
            } else if b == n as int {
                assert(self.nodes@[a] == old(self).nodes@[a]);
            } else {
                assert(self.nodes@[a] == old(self).nodes@[a]);
                assert(self.nodes@[b] == old(self).nodes@[b]);
            }
        }
        assert(self.wf_trees());
        assert(self.wf_nodes());
        assert(self.wf_children());
        assert(self.wf_attachment());
        assert(self.wf_stakes());
        assert(self.wf_bribes());
        proof {
            self.lemma_tag_set_frame(*old(self), parent as int);
            self.lemma_wf_tags_frame(*old(self));
            assert forall|i: int| 0 <= i < old(self).nodes@.len() implies same_node_shape(
                #[trigger] self.nodes@[i],
                old(self).nodes@[i],
            ) by {}
            self.lemma_not_tag_set_frame(*old(self), parent as int);
            self.lemma_excl_frame(*old(self));
        }
        Ok(n)
    }

    /// `self` differs from `other` at most in the attached children of node `p`.
    pub open spec fn only_children_of_changed(self, other: Index, p: int) -> bool {
        &&& self.same_but_nodes(other)
        &&& self.nodes@.len() == other.nodes@.len()
        &&& forall|j: int|
            0 <= j < self.nodes@.len() && j != p ==> #[trigger] self.nodes@[j] == other.nodes@[j]
        &&& self.nodes@[p].tree == other.nodes@[p].tree
        &&& self.nodes@[p].parent == other.nodes@[p].parent
        &&& self.nodes@[p].tag == other.nodes@[p].tag
        &&& self.nodes@[p].attached_note == other.nodes@[p].attached_note
        &&& self.nodes@[p].stake == other.nodes@[p].stake
    }

    /// Attaches `child`, created below `parent`, as a child of `parent`, so
    /// that its tag is excluded below each of its attached siblings and theirs below it.
    /// Fails with `TagsMismatch` when a node already created below a sibling, or
    /// below `child`, introduces a tag that would then be excluded there.
    pub fn attach_node(&mut self, parent: usize, child: usize) -> (r: Result<(), DipErrors>)
        requires
            old(self).wf(),
        ensures
            final(self).wf(),
            parent >= old(self).nodes@.len() || child >= old(self).nodes@.len() ==> r == Err::<
                (),
                DipErrors,
            >(DipErrors::InvalidNode),
            parent < old(self).nodes@.len() && child < old(self).nodes@.len() ==> {
                let pn = old(self).nodes@[parent as int];
                let cn = old(self).nodes@[child as int];
                &&& cn.parent != Some(parent) ==> r == Err::<(), DipErrors>(DipErrors::NotAChild)
                &&& cn.parent == Some(parent) && old(self).has_child_tag(parent as int, cn.tag@)
                    ==> r == Err::<(), DipErrors>(DipErrors::AlreadyAChild)
                &&& cn.parent == Some(parent) && !old(self).has_child_tag(parent as int, cn.tag@)
                    && pn.children@.len() >= old(self).capacity ==> r == Err::<(), DipErrors>(
                    DipErrors::NodeFull,
                )
                &&& cn.parent == Some(parent) && !old(self).has_child_tag(parent as int, cn.tag@)
                    && pn.children@.len() < old(self).capacity && old(self).siblings_clash(
                    parent as int,
                    child as int,
                    child as int,
                ) ==> r == Err::<(), DipErrors>(DipErrors::TagsMismatch)
                &&& cn.parent == Some(parent) && !old(self).has_child_tag(parent as int, cn.tag@)
                    && pn.children@.len() < old(self).capacity && !old(self).siblings_clash(
                    parent as int,
                    child as int,
                    child as int,
                ) ==> {
                    &&& r is Ok
                    &&& final(self).only_children_of_changed(*old(self), parent as int)
                    &&& final(self).nodes@[parent as int].children@ == pn.children@.push(child)
                }
            },
            r is Err ==> *final(self) == *old(self),
    {
        if parent >= self.nodes.len() || child >= self.nodes.len() {
            return Err(DipErrors::InvalidNode);
        }
        if self.nodes[child].parent != Some(parent) {
            return Err(DipErrors::NotAChild);
        }
        if self.child_tag_taken(parent, &self.nodes[child].tag) {
            return Err(DipErrors::AlreadyAChild);
        }
        if self.nodes[parent].children.len() >= self.capacity {
            return Err(DipErrors::NodeFull);
        }
        if self.find_clash(parent, child, child) {
            return Err(DipErrors::TagsMismatch);
        }
        proof {
            assert forall|k: int| 0 <= k < self.nodes@[parent as int].children@.len()
                implies self.nodes@[parent as int].children@[k] != child by {
                if self.nodes@[parent as int].children@[k] == child {
                    assert(self.child_tag(parent as int, k) == self.nodes@[child as int].tag@);
                }
            }
        }
        self.nodes[parent].children.push(child);
        assert(self.nodes@.len() == old(self).nodes@.len());
        assert(self.trees == old(self).trees);
        assert(self.notes == old(self).notes);
        assert(self.stakes == old(self).stakes);
        assert(self.bribes == old(self).bribes);
        assert forall|j: int| 0 <= j < self.nodes@.len() && j != parent implies #[trigger] self.nodes@[j] == old(self).nodes@[j] by {}
        assert(self.wf_trees());
        assert(self.wf_nodes());
        assert(self.wf_children());
        assert(self.wf_attachment());
        assert(self.wf_stakes());
        assert(self.wf_bribes());
        proof {
            self.lemma_wf_tags_frame(*old(self));
            let o = *old(self);
            let p = parent as int;
            let c0 = o.nodes@[p].children@;
            let c1 = self.nodes@[p].children@;
            let ol = c0.len() as int;
            assert forall|n: int, a: int, b: int|
                #![trigger self.nodes@[n], self.nodes@[p].children@[a], self.child_tag(p, b)]
                0 <= n < self.nodes@.len() && 0 <= a < c1.len() && 0 <= b < c1.len() && c1[a]
                    != c1[b] && self.nodes@[n].parent == Some(c1[a]) implies self.nodes@[n].tag@
                != self.child_tag(p, b) by {
                let ca = c1[a] as int;
                let cb = c1[b] as int;
                assert(self.nodes@[n].parent == o.nodes@[n].parent);
                assert(self.nodes@[n].tag == o.nodes@[n].tag);
                assert(self.nodes@[cb].tag == o.nodes@[cb].tag);
                if a < ol && b < ol {
                    assert(c1[a] == c0[a] && c1[b] == c0[b]);
                    assert(o.node_ok(ca));
                    assert(o.nodes@[ca].parent == Some(parent));
                    assert(c0.contains(ca as usize));
                    assert(o.is_attached(ca));
                    assert(o.child_tag(p, b) == self.child_tag(p, b));
                    assert(o.not_tag_set(ca).contains(o.child_tag(p, b)));
                    assert(o.nodes@[n].parent is Some);
                } else if a < ol {
                    assert(c1[a] == c0[a]);
                    assert(!o.clash_at(p, child as int, child as int, a));
                    if self.nodes@[n].tag@ == self.child_tag(p, b) {
                        assert(o.nodes@[n].tag@ == o.nodes@[child as int].tag@);
                        assert(o.has_node(ca, o.nodes@[child as int].tag@));
                    }
                } else {
                    assert(c1[b] == c0[b]);
                    assert(!o.clash_at(p, child as int, child as int, b));
                    assert(o.child_tag(p, b) == self.child_tag(p, b));
                    if self.nodes@[n].tag@ == self.child_tag(p, b) {
                        assert(o.has_node(child as int, o.child_tag(p, b)));
                    }
                }
            }
            self.lemma_excl_children_change(o, p);
        }
        Ok(())
    }

    /// `self` is `other` with `challenger` in place of `incumbent` among the
    /// attached children of `parent`.
    pub open spec fn node_replaced(self, other: Index, parent: int, incumbent: int, challenger: int) -> bool {
        let old_children = other.nodes@[parent].children@;
        &&& self.only_children_of_changed(other, parent)
        &&& self.nodes@[parent].children@.len() == old_children.len()
        &&& forall|k: int|
            0 <= k < old_children.len() ==> #[trigger] self.nodes@[parent].children@[k] == if old_children[k]
                == incumbent as usize {
                challenger as usize
            } else {
                old_children[k]
            }
    }

    /// Evicts the attached child `incumbent` of `parent` in favour of `challenger`,
    /// created below `parent` and holding strictly more stake, when `parent` is full.
    /// The challenger takes the incumbent's place among the children. Fails with
    /// `TagsMismatch` when that would exclude a tag that a node below a remaining
    /// sibling, or below the challenger, already introduces.
    pub fn replace_node(&mut self, parent: usize, incumbent: usize, challenger: usize) -> (r:
        Result<(), DipErrors>)
        requires
            old(self).wf(),
        ensures
            final(self).wf(),
            parent >= old(self).nodes@.len() || incumbent >= old(self).nodes@.len() || challenger
                >= old(self).nodes@.len() ==> r == Err::<(), DipErrors>(DipErrors::InvalidNode),
            parent < old(self).nodes@.len() && incumbent < old(self).nodes@.len() && challenger
                < old(self).nodes@.len() ==> {
                let pn = old(self).nodes@[parent as int];
                let inc = old(self).nodes@[incumbent as int];
                let ch = old(self).nodes@[challenger as int];
                let linked = pn.children@.contains(incumbent) && ch.parent == Some(parent);
                &&& !linked ==> r == Err::<(), DipErrors>(DipErrors::NotAChild)
                &&& linked && pn.children@.len() < old(self).capacity ==> r == Err::<(), DipErrors>(
                    DipErrors::NodeNotFull,
                )
                &&& linked && pn.children@.len() >= old(self).capacity && ch.stake <= inc.stake
                    ==> r == Err::<(), DipErrors>(DipErrors::NotEnoughStake)
                &&& linked && pn.children@.len() >= old(self).capacity && ch.stake > inc.stake
                    && old(self).has_child_tag(parent as int, ch.tag@) ==> r == Err::<
                    (),
                    DipErrors,
                >(DipErrors::AlreadyAChild)
                &&& linked && pn.children@.len() >= old(self).capacity && ch.stake > inc.stake
                    && !old(self).has_child_tag(parent as int, ch.tag@) && old(self).siblings_clash(
                    parent as int,
                    challenger as int,
                    incumbent as int,
                ) ==> r == Err::<(), DipErrors>(DipErrors::TagsMismatch)
                &&& linked && pn.children@.len() >= old(self).capacity && ch.stake > inc.stake
                    && !old(self).has_child_tag(parent as int, ch.tag@) && !old(self).siblings_clash(
                    parent as int,
                    challenger as int,
                    incumbent as int,
                ) ==> {
                    &&& r is Ok
                    &&& final(self).node_replaced(
                        *old(self),
                        parent as int,
                        incumbent as int,
                        challenger as int,
                    )
                }
            },
            r is Err ==> *final(self) == *old(self),
    {
        if parent >= self.nodes.len() || incumbent >= self.nodes.len() || challenger
            >= self.nodes.len() {
            return Err(DipErrors::InvalidNode);
        }
        let pos = self.child_position(parent, incumbent);
        if pos.is_none() || self.nodes[challenger].parent != Some(parent) {
            return Err(DipErrors::NotAChild);
        }
        let k = pos.unwrap();
        if self.nodes[parent].children.len() < self.capacity {
            return Err(DipErrors::NodeNotFull);
        }
        if self.nodes[challenger].stake <= self.nodes[incumbent].stake {
            return Err(DipErrors::NotEnoughStake);
        }
        if self.child_tag_taken(parent, &self.nodes[challenger].tag) {
            return Err(DipErrors::AlreadyAChild);
        }
        if self.find_clash(parent, challenger, incumbent) {
            return Err(DipErrors::TagsMismatch);
        }
        let ghost old_children = self.nodes@[parent as int].children@;
        proof {
            assert forall|j: int| 0 <= j < old_children.len() implies old_children[j] != challenger by {
                if old_children[j] == challenger {
                    assert(self.child_tag(parent as int, j) == self.nodes@[challenger as int].tag@);
                }
            }
        }
        self.nodes[parent].children.set(k, challenger);
        assert(self.nodes@.len() == old(self).nodes@.len());
        assert(self.trees == old(self).trees);
        assert(self.notes == old(self).notes);
        assert(self.stakes == old(self).stakes);
        assert(self.bribes == old(self).bribes);
        assert forall|j: int| 0 <= j < self.nodes@.len() && j != parent implies #[trigger] self.nodes@[j] == old(self).nodes@[j] by {}
        assert(self.wf_trees());
        assert(self.wf_nodes());
        assert(self.wf_children());
        assert(self.wf_attachment());
        assert(self.wf_stakes());
        assert(self.wf_bribes());
        proof {
            self.lemma_wf_tags_frame(*old(self));
            let o = *old(self);
            let p = parent as int;
            let c0 = o.nodes@[p].children@;
            let c1 = self.nodes@[p].children@;
            let m = k as int;
            assert forall|x: int| 0 <= x < c0.len() && x != m implies c1[x] == c0[x] && c0[x]
                != incumbent by {
                assert(c0[x] != c0[m]);
            }
            assert forall|n: int, a: int, b: int|
                #![trigger self.nodes@[n], self.nodes@[p].children@[a], self.child_tag(p, b)]
                0 <= n < self.nodes@.len() && 0 <= a < c1.len() && 0 <= b < c1.len() && c1[a]
                    != c1[b] && self.nodes@[n].parent == Some(c1[a]) implies self.nodes@[n].tag@
                != self.child_tag(p, b) by {
                let ca = c1[a] as int;
                let cb = c1[b] as int;
                assert(self.nodes@[n].parent == o.nodes@[n].parent);
                assert(self.nodes@[n].tag == o.nodes@[n].tag);
                assert(self.nodes@[cb].tag == o.nodes@[cb].tag);
                assert(o.child_tag(p, b) == o.nodes@[cb].tag@ || b == m);
                if a != m && b != m {
                    assert(o.node_ok(ca));
                    assert(o.nodes@[ca].parent == Some(parent));
                    assert(c0[a] == ca as usize);
                    assert(c0.contains(ca as usize));
                    assert(o.is_attached(ca));
                    assert(o.child_tag(p, b) == self.child_tag(p, b));
                    assert(o.not_tag_set(ca).contains(o.child_tag(p, b)));
                    assert(o.nodes@[n].parent is Some);
                } else if a != m {
                    assert(cb == challenger as int);
                    assert(!o.clash_at(p, challenger as int, incumbent as int, a));
                    if self.nodes@[n].tag@ == self.child_tag(p, b) {
                        assert(o.nodes@[n].tag@ == o.nodes@[challenger as int].tag@);
                        assert(o.has_node(ca, o.nodes@[challenger as int].tag@));
                    }
                } else {
                    assert(ca == challenger as int);
                    assert(!o.clash_at(p, challenger as int, incumbent as int, b));
                    assert(o.child_tag(p, b) == self.child_tag(p, b));
                    if self.nodes@[n].tag@ == self.child_tag(p, b) {
                        assert(o.has_node(challenger as int, o.child_tag(p, b)));
                    }
                }
            }
            self.lemma_excl_children_change(o, p);
        }
        Ok(())
    }

    /// The tags excluded below node `n`.
    pub fn excluded_tags(&self, n: usize) -> (r: Vec<Vec<u8>>)
        requires
            self.wf(),
            n < self.nodes@.len(),
        ensures
            forall|k: int| 0 <= k < r@.len() ==> self.not_tag_set(n as int).contains(#[trigger] r@[k]@),
            forall|t: Seq<u8>| #[trigger] self.not_tag_set(n as int).contains(t) ==> listed(r@, t),
    {
        let mut r: Vec<Vec<u8>> = Vec::new();
        let p = match self.nodes[n].parent {
            Some(p) => p,
            None => return r,
        };
        if self.child_position(p, n).is_none() {
            return r;
        }
        let children = &self.nodes[p].children;
        let mut k: usize = 0;
        while k < children.len()
            invariant
                self.wf(),
                p < self.nodes@.len(),
                self.nodes@[n as int].parent == Some(p),
                self.is_attached(n as int),
                0 <= k <= children@.len(),
                children@ == self.nodes@[p as int].children@,
                forall|j: int| 0 <= j < r@.len() ==> self.not_tag_set(n as int).contains(#[trigger] r@[j]@),
                forall|j: int|
                    0 <= j < k && children@[j] != n ==> #[trigger] listed(r@, self.child_tag(p as int, j)),
            decreases children@.len() - k,
        {
            let c = children[k];
            assert(self.node_ok(c as int));
            if c != n {
                let ghost before = r@;
                r.push(self.nodes[c].tag.clone());
                assert(r@[r@.len() - 1]@ == self.child_tag(p as int, k as int));
                assert(self.not_tag_set(n as int).contains(r@[r@.len() - 1]@));
                assert forall|j: int| 0 <= j < r@.len() implies self.not_tag_set(n as int).contains(
                    #[trigger] r@[j]@) by {
                    if j < before.len() {
                        assert(r@[j] == before[j]);
                    }
                }
                assert forall|j: int|
                    0 <= j <= k && children@[j] != n implies #[trigger] listed(r@, self.child_tag(p as int, j)) by {
                    if j < k {
                        assert(listed(before, self.child_tag(p as int, j)));
                        let i = choose|i: int|
                            0 <= i < before.len() && before[i]@ == self.child_tag(p as int, j);
                        assert(r@[i] == before[i]);
                    } else {
                        assert(r@[r@.len() - 1]@ == self.child_tag(p as int, j));
                    }
                }
            }
            k = k + 1;
        }
        assert forall|t: Seq<u8>| #[trigger] self.not_tag_set(n as int).contains(t) implies listed(r@, t) by {
            let j = choose|j: int|
                0 <= j < self.nodes@[p as int].children@.len() && self.nodes@[p as int].children@[j]
                    != n && t == #[trigger] self.child_tag(p as int, j);
            assert(listed(r@, self.child_tag(p as int, j)));
        }
        r
    }

    /// The full tag set of node `n`, from the node's own tag up to the root's.
    pub fn tags_of(&self, n: usize) -> (r: Vec<Vec<u8>>)
        requires
            self.wf(),
            n < self.nodes@.len(),
        ensures
            forall|k: int| 0 <= k < r@.len() ==> self.tag_set(n as int).contains(#[trigger] r@[k]@),
            forall|t: Seq<u8>| #[trigger] self.tag_set(n as int).contains(t) ==> listed(r@, t),
    {
        let mut r: Vec<Vec<u8>> = Vec::new();
        let mut cur: usize = n;
        loop
            invariant
                self.wf(),
                cur < self.nodes@.len(),
                forall|k: int| 0 <= k < r@.len() ==> self.tag_set(n as int).contains(#[trigger] r@[k]@),
                forall|t: Seq<u8>|
                    #[trigger] self.tag_set(n as int).contains(t) ==> listed(r@, t) || self.tag_set(
                        cur as int,
                    ).contains(t),
                self.tag_set(cur as int).subset_of(self.tag_set(n as int)),
            decreases cur,
        {
            let ghost before = r@;
            r.push(self.nodes[cur].tag.clone());
            assert forall|k: int| 0 <= k < r@.len() implies self.tag_set(n as int).contains(#[trigger] r@[k]@) by {
                if k < before.len() {
                    assert(r@[k] == before[k]);
                } else {
                    assert(self.tag_set(cur as int).contains(self.nodes@[cur as int].tag@));
                }
            }
            assert(listed(r@, self.nodes@[cur as int].tag@)) by {
                assert(r@[r@.len() - 1]@ == self.nodes@[cur as int].tag@);
            }
            assert forall|t: Seq<u8>| listed(before, t) implies listed(r@, t) by {
                let i = choose|i: int| 0 <= i < before.len() && before[i]@ == t;
                assert(r@[i] == before[i]);
            }
            match self.nodes[cur].parent {
                Some(p) => {
                    assert(self.tag_set(cur as int) == self.tag_set(p as int).insert(
                        self.nodes@[cur as int].tag@,
                    ));
                    cur = p;
                },
                None => {
                    assert(self.tag_set(cur as int) == set![self.nodes@[cur as int].tag@]);
                    return r;
                },
            }
        }
    }
}

/// Some element of `r` holds `t`.
pub open spec fn listed(r: Seq<Vec<u8>>, t: Seq<u8>) -> bool {
    exists|i: int| 0 <= i < r.len() && r[i]@ == t
}

} // verus!
