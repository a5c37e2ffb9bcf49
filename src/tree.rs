use vstd::prelude::*;
use vstd::multiset::Multiset;
use vstd::seq_lib::{group_to_multiset_ensures, lemma_multiset_commutative};
use crate::iter::BTreeIter;
use crate::node::{
    all_ge, all_le, child_index, children_view, insert_outcome, inserted, lemma_child_wf,
    lemma_children_view_concat, lemma_children_view_one, lemma_children_view_split,
    lemma_children_view_unfold, lemma_inserted_bounds, lemma_inserted_len, lemma_keys_sorted,
    lemma_replace_multiset, lemma_sorted_concat, lemma_sorted_of, lemma_wf_count, lemma_wf_sorted,
    node_count, node_valid, node_view, node_wf, separated, sorted, sorted_of, BTreeLeaf, BTreeNode,
    BTreeSubTree,
};

verus! {

/// An ordered multiset of `i64` values, kept in a balanced tree whose
/// internal nodes have two or three children and whose leaves hold one or
/// two values.
pub struct BTree {
    root: Option<BTreeNode>,
    height: Ghost<nat>,
}

impl View for BTree {
    type V = Seq<i64>;

    /// The values held, in ascending order.
    closed spec fn view(&self) -> Seq<i64> {
        match self.root {
            Some(node) => node_view(node),
            None => Seq::empty(),
        }
    }
}

impl BTree {
    #[verifier::type_invariant]
    spec fn inv(self) -> bool {
        match self.root {
            Some(node) => node_wf(node, self.height@),
            None => true,
        }
    }

    /// The values of a tree that meets its invariant are in ascending order.
    proof fn lemma_sorted(&self)
        requires
            self.inv(),
        ensures
            sorted(self@),
    {
        if let Some(node) = self.root {
            lemma_wf_sorted(node, self.height@);
        }
    }

    /// The root node, when the tree holds any value.
    pub closed spec fn root_node(&self) -> Option<BTreeNode> {
        self.root
    }

    pub fn new() -> (r: Self)
        ensures
            r@ == Seq::<i64>::empty(),
    {
        BTree { root: None, height: Ghost(0) }
    }

    pub fn len(&self) -> (r: usize)
        ensures
            r == self@.len(),
    {
        proof {
            use_type_invariant(self);
        }
        match &self.root {
            Some(node) => {
                proof {
                    lemma_wf_count(*node, self.height@);
                }
                node.values_number()
            },
            None => 0,
        }
    }

    pub fn is_empty(&self) -> (r: bool)
        ensures
            r == (self@.len() == 0),
    {
        self.len() == 0
    }

    pub fn is_not_empty(&self) -> (r: bool)
        ensures
            r == (self@.len() > 0),
    {
        !self.is_empty()
    }

    /// Adds `value`. The values stay in ascending order; a value equal to
    /// some already held goes with them.
    pub fn insert(&mut self, value: i64)
        requires
            old(self)@.len() < usize::MAX,
        ensures
            final(self)@ == sorted_of(old(self)@.push(value)),
            final(self)@.len() == old(self)@.len() + 1,
            sorted(final(self)@),
            final(self)@.to_multiset() == old(self)@.to_multiset().insert(value),
            old(self)@.len() <= 1 ==> (final(self).root_node() matches Some(n) && n is Leaf),
            (old(self).root_node() matches Some(n) && n is Leaf && n->leaf.values@.len() == 2) ==> (
            final(self).root_node() matches Some(n) && n is SubTree && {
                let c = n->subtree.children@;
                &&& n->subtree.mid_keys@ == seq![final(self)@[1]]
                &&& c.len() == 2
                &&& c[0] is Leaf
                &&& c[0]->leaf.values@ == seq![final(self)@[0]]
                &&& c[1] is Leaf
                &&& c[1]->leaf.values@ == seq![final(self)@[1], final(self)@[2]]
            }),
    {
        proof {
            use_type_invariant(&*self);
            if self.root is Some {
                lemma_small_root_is_leaf(self.root->0, self.height@);
            }
        }
        let ghost h = self.height@;
        let mut root: Option<BTreeNode> = None;
        std::mem::swap(&mut root, &mut self.root);
        match root {
            None => {
                let leaf = BTreeLeaf::new(vec![value]);
                *self = BTree { root: Some(BTreeNode::Leaf { leaf }), height: Ghost(0) };
                proof {
                    broadcast use group_to_multiset_ensures;
                    broadcast use vstd::multiset::group_multiset_axioms;

                    assert(old(self)@ == Seq::<i64>::empty());
                    assert(Seq::<i64>::empty().to_multiset() =~= Multiset::<i64>::empty());
                    assert(seq![value] =~= Seq::<i64>::empty().push(value));
                    assert(self@ == seq![value]);
                }
            },
            Some(node) => {
                let mut node = node;
                let split = Self::insert_to_node(&mut node, value, Ghost(h));
                match split {
                    None => {
                        *self = BTree { root: Some(node), height: Ghost(h) };
                    },
                    Some((mid_key, second)) => {
                        proof {
                            lemma_inserted_len(
                                old(self)@,
                                node_view(node) + node_view(second),
                                value,
                            );
                        }
                        let new_root = Self::new_root_after_division(
                            node,
                            second,
                            mid_key,
                            Ghost(h),
                        );
                        *self = BTree { root: Some(new_root), height: Ghost(h + 1) };
                    },
                }
            },
        }
        proof {
            broadcast use group_to_multiset_ensures;

            lemma_inserted_len(old(self)@, self@, value);
            lemma_sorted_of(old(self)@.push(value));
        }
    }

    /// A root over the two halves of a root that split at `mid_key`.
    fn new_root_after_division(
        first_node: BTreeNode,
        second_node: BTreeNode,
        mid_key: i64,
        Ghost(h): Ghost<nat>,
    ) -> (r: BTreeNode)
        requires
            node_wf(first_node, h),
            node_wf(second_node, h),
            all_le(node_view(first_node), mid_key),
            all_ge(node_view(second_node), mid_key),
            node_view(first_node).len() + node_view(second_node).len() <= usize::MAX,
        ensures
            node_wf(r, h + 1),
            node_view(r) == node_view(first_node) + node_view(second_node),
            r is SubTree,
            r->subtree.children@ == seq![first_node, second_node],
            r->subtree.mid_keys@ == seq![mid_key],
    {
        let ghost c = seq![first_node, second_node];
        proof {
            lemma_wf_count(first_node, h);
            lemma_wf_count(second_node, h);
            lemma_children_view_unfold(c);
            assert(c[0] == first_node);
            assert(c[1] == second_node);
        }
        let subtree = BTreeSubTree::new(vec![first_node, second_node], vec![mid_key]);
        proof {
            assert(subtree.children@ =~= c);
            assert(subtree.mid_keys@ =~= seq![mid_key]);
        }
        BTreeNode::SubTree { subtree }
    }

    /// The smallest value, when there is one.
    pub fn first(&self) -> (r: Option<i64>)
        ensures
            r == (if self@.len() == 0 {
                None::<i64>
            } else {
                Some(self@[0])
            }),
            r matches Some(v) ==> forall|j: int| 0 <= j < self@.len() ==> v <= #[trigger] self@[j],
    {
        proof {
            use_type_invariant(self);
            self.lemma_sorted();
        }
        match &self.root {
            Some(node) => {
                proof {
                    lemma_wf_sorted(*node, self.height@);
                }
                Some(node.first())
            },
            None => None,
        }
    }

    /// The largest value, when there is one.
    pub fn last(&self) -> (r: Option<i64>)
        ensures
            r == (if self@.len() == 0 {
                None::<i64>
            } else {
                Some(self@.last())
            }),
            r matches Some(v) ==> forall|j: int| 0 <= j < self@.len() ==> #[trigger] self@[j] <= v,
    {
        proof {
            use_type_invariant(self);
            self.lemma_sorted();
        }
        match &self.root {
            Some(node) => {
                proof {
                    lemma_wf_sorted(*node, self.height@);
                }
                Some(node.last())
            },
            None => None,
        }
    }

    /// The value of rank `index`, counting from zero, when `index` is below
    /// the number of values.
    pub fn get(&self, index: usize) -> (r: Option<i64>)
        ensures
            r == (if index < self@.len() {
                Some(self@[index as int])
            } else {
                None::<i64>
            }),
            r matches Some(v) ==> (forall|j: int| 0 <= j < index ==> #[trigger] self@[j] <= v) && (
            forall|j: int| index < j < self@.len() ==> v <= #[trigger] self@[j]),
    {
        proof {
            use_type_invariant(self);
            self.lemma_sorted();
        }
        if index >= self.len() {
            None
        } else {
            match &self.root {
                Some(node) => Some(node.get(index)),
                None => None,
            }
        }
    }

    /// The root node, for looking at the shape of the tree; none when empty.
    pub fn root(&self) -> (r: Option<&BTreeNode>)
        ensures
            r is None <==> self@.len() == 0,
            r is None <==> self.root_node() is None,
            r matches Some(node) ==> self.root_node() == Some(*node),
            r matches Some(node) ==> node_valid(*node) && node_view(*node) == self@,
    {
        proof {
            use_type_invariant(self);
        }
        match &self.root {
            Some(node) => {
                proof {
                    lemma_wf_sorted(*node, self.height@);
                }
                Some(node)
            },
            None => None,
        }
    }

    /// A cursor over all the values, from the smallest.
    pub fn iter(&self) -> (r: BTreeIter<'_>)
        ensures
            r@ == self@,
            sorted(r@),
    {
        proof {
            use_type_invariant(self);
            self.lemma_sorted();
        }
        let r = BTreeIter::new(self, 0);
        proof {
            assert(r@ =~= self@);
        }
        r
    }

    /// A cursor at the first value that is not below `value`: what it yields
    /// are the values from `value` up, and all values before them are below
    /// `value`.
    pub fn find(&self, value: &i64) -> (r: BTreeIter<'_>)
        ensures
            r@.len() <= self@.len(),
            r@ == self@.subrange(self@.len() - r@.len(), self@.len() as int),
            forall|j: int| 0 <= j < self@.len() - r@.len() ==> #[trigger] self@[j] < *value,
            forall|j: int| 0 <= j < r@.len() ==> *value <= #[trigger] r@[j],
    {
        proof {
            use_type_invariant(self);
        }
        let position = match &self.root {
            Some(node) => node.find(value),
            None => 0,
        };
        let r = BTreeIter::new(self, position);
        proof {
            assert(r@.len() == self@.len() - position);
            assert forall|j: int| 0 <= j < r@.len() implies *value <= #[trigger] r@[j] by {
                assert(r@[j] == self@[position + j]);
            }
        }
        r
    }

    /// The value of rank `index`, counting from zero.
    pub fn get_unchecked(&self, index: usize) -> (r: i64)
        requires
            index < self@.len(),
        ensures
            r == self@[index as int],
    {
        self.get(index).unwrap()
    }

    /// Adds every value of `values`, one after the other.
    pub fn extend(&mut self, values: &[i64])
        requires
            old(self)@.len() + values@.len() <= usize::MAX,
        ensures
            final(self)@ == sorted_of(old(self)@ + values@),
            final(self)@.len() == old(self)@.len() + values@.len(),
            sorted(final(self)@),
            final(self)@.to_multiset() == old(self)@.to_multiset().add(values@.to_multiset()),
    {
        broadcast use group_to_multiset_ensures;
        broadcast use vstd::multiset::group_multiset_axioms;

        proof {
            use_type_invariant(&*self);
            self.lemma_sorted();
            assert(values@.subrange(0, 0) =~= Seq::<i64>::empty());
            assert(old(self)@.to_multiset().add(Seq::<i64>::empty().to_multiset()) =~= old(
                self,
            )@.to_multiset());
        }
        let mut i: usize = 0;
        while i < values.len()
            invariant
                i <= values@.len(),
                self@.len() == old(self)@.len() + i,
                old(self)@.len() + values@.len() <= usize::MAX,
                sorted(self@),
                self@.to_multiset() == old(self)@.to_multiset().add(
                    values@.subrange(0, i as int).to_multiset(),
                ),
            decreases values@.len() - i,
        {
            let ghost before = self@;
            self.insert(values[i]);
            proof {
                lemma_inserted_len(before, self@, values@[i as int]);
                assert(values@.subrange(0, i + 1) =~= values@.subrange(0, i as int).push(
                    values@[i as int],
                ));
                vstd::seq_lib::to_multiset_build(values@.subrange(0, i as int), values@[i as int]);
                assert(self@.to_multiset() =~= old(self)@.to_multiset().add(
                    values@.subrange(0, i + 1).to_multiset(),
                ));
            }
            i = i + 1;
        }
        proof {
            assert(values@.subrange(0, i as int) =~= values@);
            lemma_multiset_commutative(old(self)@, values@);
            lemma_sorted_of(old(self)@ + values@);
        }
    }

    /// A tree that holds the values of `values`.
    pub fn from_iter(values: &[i64]) -> (r: Self)
        ensures
            r@ == sorted_of(values@),
            r@.len() == values@.len(),
            sorted(r@),
            r@.to_multiset() == values@.to_multiset(),
    {
        broadcast use vstd::multiset::group_multiset_axioms;

        let mut tree = BTree::new();
        proof {
            assert(values.len() == values@.len());
            assert(Seq::<i64>::empty().to_multiset() =~= Multiset::<i64>::empty()) by {
                broadcast use group_to_multiset_ensures;
            }
        }
        tree.extend(values);
        proof {
            assert(tree@.to_multiset() =~= values@.to_multiset());
            lemma_sorted_of(values@);
            assert(Seq::<i64>::empty() + values@ =~= values@);
            broadcast use group_to_multiset_ensures;
        }
        tree
    }

    /// Adds `value` to the leaf `leaf`, keeping it sorted. A leaf that then holds
    /// three values keeps the smallest and hands back the other two as a new
    /// right leaf, with the middle value as the key that separates them.
    fn insert_to_leaf(leaf: &mut BTreeLeaf, value: i64) -> (r: Option<(i64, BTreeNode)>)
        requires
            node_wf(BTreeNode::Leaf { leaf: *old(leaf) }, 0),
        ensures
            insert_outcome(BTreeNode::Leaf { leaf: *final(leaf) }, r, 0, old(leaf).values@, value),
            r is None <==> old(leaf).values@.len() == 1,
            r is None ==> final(leaf).values@ == sorted_of(old(leaf).values@.push(value)),
            r matches Some((k, n)) ==> ({
                let s = sorted_of(old(leaf).values@.push(value));
                &&& final(leaf).values@ == seq![s[0]]
                &&& n is Leaf
                &&& node_view(n) == seq![s[1], s[2]]
                &&& k == s[1]
            }),
    {
        broadcast use group_to_multiset_ensures;

        let ghost old_values = leaf.values@;
        let mut pos: usize = 0;
        while pos < leaf.values.len() && leaf.values[pos] <= value
            invariant
                leaf.values@ == old_values,
                1 <= old_values.len() <= 2,
                pos <= old_values.len(),
                forall|j: int| 0 <= j < pos ==> old_values[j] <= value,
            decreases old_values.len() - pos,
        {
            pos = pos + 1;
        }
        leaf.values.insert(pos, value);
        proof {
            vstd::seq_lib::to_multiset_insert(old_values, pos as int, value);
            assert(sorted(leaf.values@)) by {
                assert forall|i: int, j: int|
                    0 <= i <= j < leaf.values@.len() implies leaf.values@[i] <= leaf.values@[j] by {
                    if j < pos {
                    } else if i > pos {
                        assert(old_values[i - 1] <= old_values[j - 1]);
                    } else if i == pos && j > pos {
                        assert(old_values[pos as int] <= old_values[j - 1]);
                    }
                }
            }
            assert(old_values.push(value).to_multiset() == leaf.values@.to_multiset());
            lemma_sorted_of(old_values.push(value));
        }
        if leaf.values.len() <= 2 {
            return None;
        }
        let ghost all = leaf.values@;
        let c = leaf.values.pop().unwrap();
        let b = leaf.values.pop().unwrap();
        let right = BTreeNode::Leaf { leaf: BTreeLeaf::new(vec![b, c]) };
        proof {
            assert(leaf.values@ + seq![b, c] =~= all);
            assert(node_view(right) == seq![b, c]);
            assert(leaf.values@ =~= seq![all[0]]);
        }
        Some((b, right))
    }

    /// Inserts `value` below `node`, a node of height `h`. When the node
    /// overflows it is split: it keeps the left half and the right half comes
    /// back with the key that separates the two.
    fn insert_to_node(node: &mut BTreeNode, value: i64, Ghost(h): Ghost<nat>) -> (r: Option<
        (i64, BTreeNode),
    >)
        requires
            node_wf(*old(node), h),
            node_view(*old(node)).len() < usize::MAX,
        ensures
            insert_outcome(*final(node), r, h, node_view(*old(node)), value),
            *old(node) is Leaf ==> leaf_insert_shape(old(node)->leaf.values@, value, *final(node), r),
            *old(node) is SubTree ==> *final(node) is SubTree && children_kept(
                old(node)->subtree.children@,
                child_index(old(node)->subtree.mid_keys@, value),
                final(node)->subtree,
                r,
            ),
        decreases h, 2nat,
    {
        match node {
            BTreeNode::Leaf { leaf } => Self::insert_to_leaf(leaf, value),
            BTreeNode::SubTree { subtree } => Self::insert_to_subtree(subtree, value, Ghost(h)),
        }
    }

    /// Inserts `value` below the internal node `subtree` of height `h`, into
    /// the child that the separator keys route it to.
    fn insert_to_subtree(subtree: &mut BTreeSubTree, value: i64, Ghost(h): Ghost<nat>) -> (r:
        Option<(i64, BTreeNode)>)
        requires
            node_wf(BTreeNode::SubTree { subtree: *old(subtree) }, h),
            children_view(old(subtree).children@).len() < usize::MAX,
        ensures
            insert_outcome(
                BTreeNode::SubTree { subtree: *final(subtree) },
                r,
                h,
                children_view(old(subtree).children@),
                value,
            ),
            children_kept(
                old(subtree).children@,
                child_index(old(subtree).mid_keys@, value),
                *final(subtree),
                r,
            ),
        decreases h, 1nat,
    {
        let child_subtree_index = subtree.get_children_index_by_value(&value);
        Self::insert_to_children_subtree(subtree, child_subtree_index, value, Ghost(h))
    }

    /// Inserts `value` into child `idx` of `subtree`, counts it, and takes in
    /// the new sibling and key if that child split.
    fn insert_to_children_subtree(
        subtree: &mut BTreeSubTree,
        idx: usize,
        value: i64,
        Ghost(h): Ghost<nat>,
    ) -> (r: Option<(i64, BTreeNode)>)
        requires
            node_wf(BTreeNode::SubTree { subtree: *old(subtree) }, h),
            children_view(old(subtree).children@).len() < usize::MAX,
            idx == child_index(old(subtree).mid_keys@, value),
        ensures
            insert_outcome(
                BTreeNode::SubTree { subtree: *final(subtree) },
                r,
                h,
                children_view(old(subtree).children@),
                value,
            ),
            children_kept(old(subtree).children@, idx as int, *final(subtree), r),
        decreases h, 0nat,
    {
        let ghost st0 = *subtree;
        proof {
            lemma_child_wf(BTreeNode::SubTree { subtree: st0 }, h, idx as int);
            lemma_children_view_split(st0.children@, idx as int);
        }
        let split = Self::insert_to_node(&mut subtree.children[idx], value, Ghost((h - 1) as nat));
        subtree.values_number = subtree.values_number + 1;
        match split {
            None => {
                proof {
                    lemma_child_grown(st0, *subtree, idx as int, value, h);
                }
                None
            },
            Some((mid_key, right)) => {
                proof {
                    lemma_child_split(st0, subtree.children@, idx as int, value, mid_key, right, h);
                }
                Self::insert_mid_key_to_parent_subtree(
                    subtree,
                    idx,
                    mid_key,
                    right,
                    Ghost(h),
                    Ghost(children_view(st0.children@)),
                    Ghost(value),
                )
            },
        }
    }

    /// Puts `mid_key` and the new child `right` just after child `idx` of
    /// `subtree`. A node that then has four children keeps the first two and
    /// hands back the last two as a new right node, with the middle key as the
    /// key that separates them.
    fn insert_mid_key_to_parent_subtree(
        subtree: &mut BTreeSubTree,
        idx: usize,
        mid_key: i64,
        right: BTreeNode,
        Ghost(h): Ghost<nat>,
        Ghost(old_view): Ghost<Seq<i64>>,
        Ghost(value): Ghost<i64>,
    ) -> (r: Option<(i64, BTreeNode)>)
        requires
            h > 0,
            2 <= old(subtree).children@.len() <= 3,
            old(subtree).mid_keys@.len() + 1 == old(subtree).children@.len(),
            idx < old(subtree).children@.len(),
            forall|i: int|
                0 <= i < old(subtree).children@.len() ==> #[trigger] node_wf(
                    old(subtree).children@[i],
                    (h - 1) as nat,
                ),
            node_wf(right, (h - 1) as nat),
            separated(old(subtree).children@, old(subtree).mid_keys@),
            all_le(node_view(old(subtree).children@[idx as int]), mid_key),
            all_ge(node_view(right), mid_key),
            idx < old(subtree).mid_keys@.len() ==> all_le(
                node_view(right),
                old(subtree).mid_keys@[idx as int],
            ),
            old(subtree).values_number == children_view(
                old(subtree).children@.insert(idx + 1, right),
            ).len(),
            children_view(old(subtree).children@.insert(idx + 1, right)).to_multiset()
                == old_view.to_multiset().insert(value),
        ensures
            insert_outcome(BTreeNode::SubTree { subtree: *final(subtree) }, r, h, old_view, value),
            r is None <==> old(subtree).mid_keys@.len() <= 1,
            r is None ==> final(subtree).children@ == old(subtree).children@.insert(idx + 1, right)
                && final(subtree).mid_keys@ == old(subtree).mid_keys@.insert(idx as int, mid_key),
            r matches Some((k, n)) ==> ({
                let c2 = old(subtree).children@.insert(idx + 1, right);
                let k2 = old(subtree).mid_keys@.insert(idx as int, mid_key);
                &&& k == k2[1]
                &&& final(subtree).children@ == c2.subrange(0, 2)
                &&& final(subtree).mid_keys@ == seq![k2[0]]
                &&& n is SubTree
                &&& n->subtree.children@ == c2.subrange(2, 4)
                &&& n->subtree.mid_keys@ == seq![k2[2]]
            }),
    {
        let ghost c = subtree.children@;
        let ghost keys = subtree.mid_keys@;
        let ghost c2 = c.insert(idx + 1, right);
        subtree.children.insert(idx + 1, right);
        subtree.mid_keys.insert(idx, mid_key);
        let ghost keys2 = subtree.mid_keys@;
        proof {
            lemma_insert_child(c, keys, idx as int, mid_key, right, h);
        }
        if subtree.mid_keys.len() <= 2 {
            proof {
                let n1 = BTreeNode::SubTree { subtree: *subtree };
                assert(node_wf(c2[0], (h - 1) as nat));
                assert(node_wf(c2[1], (h - 1) as nat));
                if c2.len() == 3 {
                    assert(node_wf(c2[2], (h - 1) as nat));
                }
                assert(node_wf(n1, h));
                lemma_wf_sorted(n1, h);
            }
            return None;
        }
        let ghost v2 = children_view(c2);
        let fourth = subtree.children.pop().unwrap();
        let third = subtree.children.pop().unwrap();
        let last_key = subtree.mid_keys.pop().unwrap();
        let up_key = subtree.mid_keys.pop().unwrap();
        proof {
            lemma_split_four(c2, keys2, h);
            assert(subtree.children@ =~= seq![c2[0], c2[1]]);
            assert(subtree.children@ =~= c2.subrange(0, 2));
            assert(subtree.mid_keys@ =~= seq![keys2[0]]);
        }
        let first_count = subtree.children[0].values_number();
        let second_count = subtree.children[1].values_number();
        subtree.values_number = first_count + second_count;
        let second = BTreeSubTree::new(vec![third, fourth], vec![last_key]);
        let second_node = BTreeNode::SubTree { subtree: second };
        proof {
            assert(second.children@ =~= seq![c2[2], c2[3]]);
            assert(second.children@ =~= c2.subrange(2, 4));
            assert(second.mid_keys@ =~= seq![keys2[2]]);
            assert(node_wf(c2[0], (h - 1) as nat));
            assert(node_wf(c2[1], (h - 1) as nat));
            assert(node_wf(c2[2], (h - 1) as nat));
            assert(node_wf(c2[3], (h - 1) as nat));
            assert(node_wf(BTreeNode::SubTree { subtree: *subtree }, h));
            assert(node_wf(second_node, h));
            lemma_wf_sorted(BTreeNode::SubTree { subtree: *subtree }, h);
            lemma_wf_sorted(second_node, h);
            lemma_sorted_concat(
                node_view(BTreeNode::SubTree { subtree: *subtree }),
                node_view(second_node),
                up_key,
            );
        }
        Some((up_key, second_node))
    }
}

/// What inserting `value` into a leaf that held `old` leaves in `n`, with `r`:
/// one value more, in order, when it held one; otherwise the smallest in `n`,
/// the other two in a new leaf, and the middle one as the separating key.
spec fn leaf_insert_shape(old: Seq<i64>, value: i64, n: BTreeNode, r: Option<(i64, BTreeNode)>) -> bool {
    let s = sorted_of(old.push(value));
    &&& r is None <==> old.len() == 1
    &&& r is None ==> n is Leaf && n->leaf.values@ == s
    &&& r matches Some((k, m)) ==> n is Leaf && n->leaf.values@ == seq![s[0]] && m is Leaf
        && node_view(m) == seq![s[1], s[2]] && k == s[1]
}

/// After an insertion into child `idx` of a node whose children were `old`,
/// the children of `n`, followed by those of the split-off node if any, keep
/// every old child but child `idx` in its place, and one or two children
/// stand where child `idx` stood.
spec fn children_kept(old: Seq<BTreeNode>, idx: int, n: BTreeSubTree, r: Option<(i64, BTreeNode)>) -> bool {
    let all = match r {
        None => n.children@,
        Some((k, m)) => n.children@ + m->subtree.children@,
    };
    &&& r matches Some((k, m)) ==> m is SubTree
    &&& old.len() <= all.len() <= old.len() + 1
    &&& forall|j: int| 0 <= j < idx ==> #[trigger] all[j] == old[j]
    &&& forall|j: int| idx < j < old.len() ==> all[j + all.len() - old.len()] == #[trigger] old[j]
}

/// A well-formed node that holds a single value is a leaf.
proof fn lemma_small_root_is_leaf(n: BTreeNode, h: nat)
    requires
        node_wf(n, h),
    ensures
        n is SubTree ==> node_view(n).len() >= 2,
{
    if n is SubTree {
        let c = n->subtree.children@;
        lemma_child_wf(n, h, 0);
        lemma_child_wf(n, h, 1);
        lemma_wf_sorted(c[0], (h - 1) as nat);
        lemma_wf_sorted(c[1], (h - 1) as nat);
        lemma_children_view_unfold(c);
    }
}

/// The bounds that the keys set on the child that `v` is routed to.
proof fn lemma_route_bounds(keys: Seq<i64>, v: i64)
    requires
        1 <= keys.len() <= 2,
        keys.len() == 2 ==> keys[0] <= keys[1],
    ensures
        0 <= child_index(keys, v) <= keys.len(),
        child_index(keys, v) > 0 ==> keys[child_index(keys, v) - 1] <= v,
        child_index(keys, v) < keys.len() ==> v <= keys[child_index(keys, v)],
{
}

/// After the routed child took `value` without splitting, the node is well
/// formed again and holds `value` besides what it held.
proof fn lemma_child_grown(st0: BTreeSubTree, st1: BTreeSubTree, idx: int, value: i64, h: nat)
    requires
        node_wf(BTreeNode::SubTree { subtree: st0 }, h),
        idx == child_index(st0.mid_keys@, value),
        st1.mid_keys@ == st0.mid_keys@,
        st1.children@ == st0.children@.update(idx, st1.children@[idx]),
        st1.values_number == st0.values_number + 1,
        node_wf(st1.children@[idx], (h - 1) as nat),
        inserted(node_view(st0.children@[idx]), node_view(st1.children@[idx]), value),
    ensures
        node_wf(BTreeNode::SubTree { subtree: st1 }, h),
        inserted(children_view(st0.children@), children_view(st1.children@), value),
{
    let n0 = BTreeNode::SubTree { subtree: st0 };
    let n1 = BTreeNode::SubTree { subtree: st1 };
    let c0 = st0.children@;
    let c1 = st1.children@;
    let keys = st0.mid_keys@;
    lemma_keys_sorted(n0, h);
    lemma_route_bounds(keys, value);
    let lo = if idx > 0 { keys[idx - 1] } else { i64::MIN };
    let hi = if idx < keys.len() { keys[idx] } else { i64::MAX };
    lemma_children_view_split(c0, idx);
    lemma_children_view_split(c1, idx);
    assert(c1.subrange(0, idx) =~= c0.subrange(0, idx));
    assert(c1.subrange(idx + 1, c1.len() as int) =~= c0.subrange(idx + 1, c0.len() as int));
    let m = node_view(c1[idx]);
    lemma_replace_multiset(
        children_view(c0.subrange(0, idx)),
        node_view(c0[idx]),
        m,
        children_view(c0.subrange(idx + 1, c0.len() as int)),
        value,
    );
    lemma_inserted_len(node_view(c0[idx]), m, value);
    assert(all_ge(node_view(c0[idx]), lo));
    assert(all_le(node_view(c0[idx]), hi));
    lemma_inserted_bounds(node_view(c0[idx]), m, value, lo, hi);
    assert forall|j: int| 0 <= j < keys.len() implies all_le(
        node_view(c1[j]),
        #[trigger] keys[j],
    ) && all_ge(node_view(c1[j + 1]), keys[j]) by {
        assert(all_le(node_view(c0[j]), keys[j]));
        assert(all_ge(node_view(c0[j + 1]), keys[j]));
    }
    lemma_child_wf(n0, h, 0);
    lemma_child_wf(n0, h, 1);
    if c0.len() == 3 {
        lemma_child_wf(n0, h, 2);
    }
    assert(node_wf(n1, h));
    lemma_wf_sorted(n1, h);
}

/// After the routed child took `value` and split off `right` at `mid_key`,
/// the children and the new sibling meet what the key insertion asks.
proof fn lemma_child_split(
    st0: BTreeSubTree,
    c1: Seq<BTreeNode>,
    idx: int,
    value: i64,
    mid_key: i64,
    right: BTreeNode,
    h: nat,
)
    requires
        node_wf(BTreeNode::SubTree { subtree: st0 }, h),
        idx == child_index(st0.mid_keys@, value),
        c1 == st0.children@.update(idx, c1[idx]),
        node_wf(c1[idx], (h - 1) as nat),
        node_wf(right, (h - 1) as nat),
        all_le(node_view(c1[idx]), mid_key),
        all_ge(node_view(right), mid_key),
        inserted(node_view(st0.children@[idx]), node_view(c1[idx]) + node_view(right), value),
    ensures
        forall|i: int| 0 <= i < c1.len() ==> #[trigger] node_wf(c1[i], (h - 1) as nat),
        separated(c1, st0.mid_keys@),
        idx < st0.mid_keys@.len() ==> all_le(node_view(right), st0.mid_keys@[idx]),
        children_view(c1.insert(idx + 1, right)).len() == children_view(st0.children@).len() + 1,
        children_view(c1.insert(idx + 1, right)).to_multiset() == children_view(
            st0.children@,
        ).to_multiset().insert(value),
{
    let n0 = BTreeNode::SubTree { subtree: st0 };
    let c0 = st0.children@;
    let keys = st0.mid_keys@;
    lemma_keys_sorted(n0, h);
    lemma_route_bounds(keys, value);
    let lo = if idx > 0 { keys[idx - 1] } else { i64::MIN };
    let hi = if idx < keys.len() { keys[idx] } else { i64::MAX };
    let left = node_view(c1[idx]);
    let rv = node_view(right);
    assert(all_ge(node_view(c0[idx]), lo));
    assert(all_le(node_view(c0[idx]), hi));
    lemma_inserted_bounds(node_view(c0[idx]), left + rv, value, lo, hi);
    lemma_inserted_len(node_view(c0[idx]), left + rv, value);
    lemma_wf_sorted(right, (h - 1) as nat);
    assert(all_ge(left, lo)) by {
        assert forall|j: int| 0 <= j < left.len() implies lo <= #[trigger] left[j] by {
            assert(left[j] == (left + rv)[j]);
        }
    }
    assert(all_le(rv, hi)) by {
        assert forall|j: int| 0 <= j < rv.len() implies #[trigger] rv[j] <= hi by {
            assert(rv[j] == (left + rv)[left.len() + j]);
        }
    }
    assert(all_le(left, hi)) by {
        assert forall|x: int| 0 <= x < left.len() implies #[trigger] left[x] <= hi by {
            assert(left[x] <= mid_key);
            assert(mid_key <= rv[0]);
            assert(rv[0] == (left + rv)[left.len() as int]);
        }
    }
    assert forall|j: int| 0 <= j < keys.len() implies all_le(
        node_view(c1[j]),
        #[trigger] keys[j],
    ) && all_ge(node_view(c1[j + 1]), keys[j]) by {
        assert(all_le(node_view(c0[j]), keys[j]));
        assert(all_ge(node_view(c0[j + 1]), keys[j]));
    }
    assert forall|i: int| 0 <= i < c1.len() implies #[trigger] node_wf(c1[i], (h - 1) as nat) by {
        if i != idx {
            lemma_child_wf(n0, h, i);
        }
    }
    let pre = children_view(c0.subrange(0, idx));
    let suf = children_view(c0.subrange(idx + 1, c0.len() as int));
    lemma_children_view_split(c0, idx);
    let c2 = c1.insert(idx + 1, right);
    lemma_children_view_split(c2, idx);
    assert(c2.subrange(0, idx) =~= c0.subrange(0, idx));
    assert(c2.subrange(idx + 1, c2.len() as int) =~= seq![right] + c0.subrange(
        idx + 1,
        c0.len() as int,
    ));
    lemma_children_view_one(right);
    lemma_children_view_concat(seq![right], c0.subrange(idx + 1, c0.len() as int));
    assert(children_view(c2) =~= pre + (left + rv) + suf);
    lemma_replace_multiset(pre, node_view(c0[idx]), left + rv, suf, value);
}

/// Adding a child `right` after child `idx`, split from it at `mid_key`,
/// keeps the children well formed and the keys separating.
proof fn lemma_insert_child(
    c: Seq<BTreeNode>,
    keys: Seq<i64>,
    idx: int,
    mid_key: i64,
    right: BTreeNode,
    h: nat,
)
    requires
        h > 0,
        keys.len() + 1 == c.len(),
        0 <= idx < c.len(),
        forall|i: int| 0 <= i < c.len() ==> #[trigger] node_wf(c[i], (h - 1) as nat),
        node_wf(right, (h - 1) as nat),
        separated(c, keys),
        all_le(node_view(c[idx]), mid_key),
        all_ge(node_view(right), mid_key),
        idx < keys.len() ==> all_le(node_view(right), keys[idx]),
    ensures
        forall|i: int|
            0 <= i < c.len() + 1 ==> #[trigger] node_wf(c.insert(idx + 1, right)[i], (h - 1) as nat),
        separated(c.insert(idx + 1, right), keys.insert(idx, mid_key)),
{
    let c2 = c.insert(idx + 1, right);
    let keys2 = keys.insert(idx, mid_key);
    assert forall|i: int| 0 <= i < c2.len() implies node_wf(#[trigger] c2[i], (h - 1) as nat) by {
        if i <= idx {
            assert(c2[i] == c[i]);
        } else if i > idx + 1 {
            assert(c2[i] == c[i - 1]);
        }
    }
    assert forall|j: int| 0 <= j < keys2.len() implies all_le(
        node_view(c2[j]),
        #[trigger] keys2[j],
    ) && all_ge(node_view(c2[j + 1]), keys2[j]) by {
        if j < idx {
            assert(keys2[j] == keys[j]);
            assert(c2[j] == c[j]);
            assert(c2[j + 1] == c[j + 1]);
            assert(all_le(node_view(c[j]), keys[j]));
            assert(all_ge(node_view(c[j + 1]), keys[j]));
        } else if j == idx {
        } else if j == idx + 1 {
            assert(keys2[j] == keys[j - 1]);
            assert(c2[j + 1] == c[j]);
            assert(all_ge(node_view(c[j]), keys[j - 1]));
        } else {
            assert(keys2[j] == keys[j - 1]);
            assert(c2[j] == c[j - 1]);
            assert(c2[j + 1] == c[j]);
            assert(all_le(node_view(c[j - 1]), keys[j - 1]));
            assert(all_ge(node_view(c[j]), keys[j - 1]));
        }
    }
}

/// Four well-formed children with three separating keys split into two
/// well-formed halves around the middle key.
proof fn lemma_split_four(c: Seq<BTreeNode>, keys: Seq<i64>, h: nat)
    requires
        h > 0,
        c.len() == 4,
        keys.len() == 3,
        forall|i: int| 0 <= i < c.len() ==> #[trigger] node_wf(c[i], (h - 1) as nat),
        separated(c, keys),
    ensures
        node_count(c[0]) + node_count(c[1]) == children_view(seq![c[0], c[1]]).len(),
        children_view(seq![c[2], c[3]]).len() <= children_view(c).len(),
        node_count(c[2]) == node_view(c[2]).len(),
        node_count(c[3]) == node_view(c[3]).len(),
        separated(seq![c[0], c[1]], seq![keys[0]]),
        separated(seq![c[2], c[3]], seq![keys[2]]),
        all_le(children_view(seq![c[0], c[1]]), keys[1]),
        all_ge(children_view(seq![c[2], c[3]]), keys[1]),
        children_view(c) == children_view(seq![c[0], c[1]]) + children_view(seq![c[2], c[3]]),
{
    assert(node_wf(c[0], (h - 1) as nat));
    assert(node_wf(c[1], (h - 1) as nat));
    assert(node_wf(c[2], (h - 1) as nat));
    assert(node_wf(c[3], (h - 1) as nat));
    lemma_wf_count(c[0], (h - 1) as nat);
    lemma_wf_count(c[1], (h - 1) as nat);
    lemma_wf_count(c[2], (h - 1) as nat);
    lemma_wf_count(c[3], (h - 1) as nat);
    lemma_wf_sorted(c[1], (h - 1) as nat);
    lemma_wf_sorted(c[2], (h - 1) as nat);
    lemma_children_view_unfold(c);
    lemma_children_view_unfold(seq![c[0], c[1]]);
    lemma_children_view_unfold(seq![c[2], c[3]]);
    let a = node_view(c[0]);
    let b = node_view(c[1]);
    let cc = node_view(c[2]);
    let d = node_view(c[3]);
    assert(keys[0] <= b[0] && b[0] <= keys[1]);
    assert(keys[1] <= cc[0] && cc[0] <= keys[2]);
    assert(separated(seq![c[0], c[1]], seq![keys[0]])) by {
        assert(seq![keys[0]][0] == keys[0]);
    }
    assert(separated(seq![c[2], c[3]], seq![keys[2]])) by {
        assert(seq![keys[2]][0] == keys[2]);
    }
    assert forall|j: int| 0 <= j < (a + b).len() implies #[trigger] (a + b)[j] <= keys[1] by {
        if j < a.len() {
            assert(a[j] <= keys[0]);
        } else {
            assert((a + b)[j] == b[j - a.len()]);
        }
    }
    assert forall|j: int| 0 <= j < (cc + d).len() implies keys[1] <= #[trigger] (cc + d)[j] by {
        if j < cc.len() {
        } else {
            assert((cc + d)[j] == d[j - cc.len()]);
            assert(keys[2] <= d[j - cc.len()]);
        }
    }
    assert(children_view(c) =~= (a + b) + (cc + d));
}

} // verus!
