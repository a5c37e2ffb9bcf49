use vstd::prelude::*;
use crate::node::{
    all_ge, all_le, children_view, lemma_children_view_ge, lemma_children_view_le,
    lemma_children_view_prefix, lemma_children_view_split, lemma_children_wf, lemma_keys_sorted,
    lemma_wf_count, lemma_wf_sorted, node_count, node_valid, node_view, node_wf, BTreeLeaf,
    BTreeNode,
};

verus! {

impl BTreeNode {
    /// The leftmost leaf below this node: its values open the node's values.
    pub fn first_leaf(&self) -> (r: &BTreeLeaf)
        requires
            node_valid(*self),
        ensures
            node_wf(BTreeNode::Leaf { leaf: *r }, 0),
            r.values@.len() <= node_view(*self).len(),
            r.values@ == node_view(*self).subrange(0, r.values@.len() as int),
    {
        let ghost s = node_view(*self);
        let ghost h = choose|h: nat| node_wf(*self, h);
        let ghost mut hh = h;
        let mut node = self;
        while node.is_node()
            invariant
                node_wf(*node, hh),
                node_view(*node).len() <= s.len(),
                node_view(*node) == s.subrange(0, node_view(*node).len() as int),
            decreases hh,
        {
            let subtree = node.unwrap_as_subtree();
            proof {
                let c = subtree.children@;
                lemma_children_wf(*node, hh);
                lemma_children_view_split(c, 0);
                assert(c.subrange(0, 0) =~= Seq::<BTreeNode>::empty());
                assert(children_view(Seq::<BTreeNode>::empty()) == Seq::<i64>::empty());
                assert(children_view(c) =~= node_view(c[0]) + children_view(c.subrange(1, c.len() as int)));
                assert(node_view(c[0]) =~= s.subrange(0, node_view(c[0]).len() as int));
            }
            node = &subtree.children[0];
            proof {
                hh = (hh - 1) as nat;
            }
        }
        node.unwrap_as_leaf()
    }

    /// The rightmost leaf below this node: its values close the node's values.
    pub fn last_leaf(&self) -> (r: &BTreeLeaf)
        requires
            node_valid(*self),
        ensures
            node_wf(BTreeNode::Leaf { leaf: *r }, 0),
            r.values@.len() <= node_view(*self).len(),
            r.values@ == node_view(*self).subrange(
                node_view(*self).len() - r.values@.len(),
                node_view(*self).len() as int,
            ),
    {
        let ghost s = node_view(*self);
        let ghost h = choose|h: nat| node_wf(*self, h);
        let ghost mut hh = h;
        let mut node = self;
        while node.is_node()
            invariant
                node_wf(*node, hh),
                node_view(*node).len() <= s.len(),
                node_view(*node) == s.subrange(s.len() - node_view(*node).len(), s.len() as int),
            decreases hh,
        {
            let subtree = node.unwrap_as_subtree();
            let last = subtree.children.len() - 1;
            proof {
                let c = subtree.children@;
                lemma_children_wf(*node, hh);
                assert(c.last() == c[last as int]);
                let a = children_view(c.drop_last());
                let b = node_view(c[last as int]);
                assert(node_view(*node) == a + b);
                assert(b =~= node_view(*node).subrange(a.len() as int, node_view(*node).len() as int));
                assert(b =~= s.subrange(s.len() - b.len(), s.len() as int));
            }
            node = &subtree.children[last];
            proof {
                hh = (hh - 1) as nat;
            }
        }
        node.unwrap_as_leaf()
    }

    /// The smallest value below this node.
    pub fn first(&self) -> (r: i64)
        requires
            node_valid(*self),
        ensures
            r == node_view(*self)[0],
    {
        let leaf = self.first_leaf();
        proof {
            assert(leaf.values@[0] == node_view(*self).subrange(0, leaf.values@.len() as int)[0]);
        }
        leaf.values[0]
    }

    /// The largest value below this node.
    pub fn last(&self) -> (r: i64)
        requires
            node_valid(*self),
        ensures
            r == node_view(*self).last(),
    {
        let leaf = self.last_leaf();
        proof {
            let s = node_view(*self);
            let n = leaf.values@.len();
            assert(leaf.values@[n - 1] == s.subrange(s.len() - n, s.len() as int)[n - 1]);
        }
        leaf.values[leaf.values.len() - 1]
    }

    /// The value of rank `index` below this node, counting from zero: found by
    /// skipping, at each internal node, the children whose counts lie wholly
    /// below the rank that is left.
    pub fn get(&self, index: usize) -> (r: i64)
        requires
            node_valid(*self),
            index < node_view(*self).len(),
        ensures
            r == node_view(*self)[index as int],
    {
        let ghost s = node_view(*self);
        let ghost h = choose|h: nat| node_wf(*self, h);
        let ghost mut hh = h;
        let ghost mut base: int = 0;
        let mut node = self;
        let mut rank = index;
        while node.is_node()
            invariant
                node_wf(*node, hh),
                0 <= base,
                base + node_view(*node).len() <= s.len(),
                node_view(*node) == s.subrange(base, base + node_view(*node).len()),
                base + rank == index,
                rank < node_view(*node).len(),
            decreases hh,
        {
            let subtree = node.unwrap_as_subtree();
            let ghost c = subtree.children@;
            proof {
                lemma_children_wf(*node, hh);
            }
            let mut i: usize = 0;
            let ghost start = rank;
            while rank >= subtree.children[i].values_number()
                invariant
                    c == subtree.children@,
                    forall|j: int|
                        0 <= j < c.len() ==> node_wf(#[trigger] c[j], (hh - 1) as nat)
                            && node_count(c[j]) == node_view(c[j]).len(),
                    i < c.len(),
                    c.len() <= 3,
                    start < children_view(c).len(),
                    rank + children_view(c.subrange(0, i as int)).len() == start,
                decreases c.len() - i,
            {
                proof {
                    lemma_children_view_split(c, i as int);
                    lemma_children_view_prefix(c, i as int);
                    if i + 1 == c.len() {
                        assert(c.subrange(i + 1, c.len() as int) =~= Seq::<BTreeNode>::empty());
                        assert(children_view(Seq::<BTreeNode>::empty()) == Seq::<i64>::empty());
                    }
                }
                rank = rank - subtree.children[i].values_number();
                i = i + 1;
            }
            proof {
                lemma_children_view_split(c, i as int);
                let before = children_view(c.subrange(0, i as int)).len();
                let w = node_view(c[i as int]);
                assert(node_view(*node) == children_view(c));
                assert(w =~= children_view(c).subrange(before as int, before + w.len() as int));
                assert(w =~= s.subrange(base + before, base + before + w.len()));
                base = base + before;
            }
            node = &subtree.children[i];
            proof {
                hh = (hh - 1) as nat;
            }
        }
        let leaf = node.unwrap_as_leaf();
        leaf.values[rank]
    }

    /// The number of values below this node that are smaller than `value`:
    /// the position of the first value not below it. The descent takes, at
    /// each internal node, the first child whose key is not below `value`.
    pub fn find(&self, value: &i64) -> (r: usize)
        requires
            node_valid(*self),
        ensures
            r <= node_view(*self).len(),
            forall|j: int| 0 <= j < r ==> #[trigger] node_view(*self)[j] < *value,
            forall|j: int| r <= j < node_view(*self).len() ==> *value <= #[trigger] node_view(*self)[j],
    {
        let ghost s = node_view(*self);
        let ghost h = choose|h: nat| node_wf(*self, h);
        let ghost mut hh = h;
        let mut node = self;
        let mut base: usize = 0;
        proof {
            lemma_wf_sorted(*self, h);
            lemma_wf_count(*self, h);
        }
        while node.is_node()
            invariant
                node_wf(*node, hh),
                base + node_view(*node).len() <= s.len(),
                s.len() <= usize::MAX,
                node_view(*node) == s.subrange(base as int, base + node_view(*node).len()),
                forall|j: int| 0 <= j < base ==> #[trigger] s[j] < *value,
                forall|j: int| base + node_view(*node).len() <= j < s.len() ==> *value <= #[trigger] s[j],
            decreases hh,
        {
            let subtree = node.unwrap_as_subtree();
            let ghost c = subtree.children@;
            let ghost keys = subtree.mid_keys@;
            proof {
                lemma_children_wf(*node, hh);
                lemma_keys_sorted(*node, hh);
            }
            let mut i: usize = 0;
            while i < subtree.mid_keys.len() && subtree.mid_keys[i] < *value
                invariant
                    keys == subtree.mid_keys@,
                    i <= keys.len(),
                    forall|j: int| 0 <= j < i ==> #[trigger] keys[j] < *value,
                decreases keys.len() - i,
            {
                i = i + 1;
            }
            let mut before: usize = 0;
            let mut j: usize = 0;
            while j < i
                invariant
                    c == subtree.children@,
                    i < c.len(),
                    j <= i,
                    forall|k: int|
                        0 <= k < c.len() ==> node_wf(#[trigger] c[k], (hh - 1) as nat)
                            && node_count(c[k]) == node_view(c[k]).len(),
                    before == children_view(c.subrange(0, j as int)).len(),
                    children_view(c).len() <= usize::MAX,
                decreases i - j,
            {
                proof {
                    lemma_children_view_prefix(c, j as int);
                }
                before = before + subtree.children[j].values_number();
                j = j + 1;
            }
            proof {
                let pre = c.subrange(0, i as int);
                let suf = c.subrange(i + 1, c.len() as int);
                lemma_children_view_split(c, i as int);
                if i > 0 {
                    assert forall|k: int| 0 <= k < pre.len() implies all_le(
                        #[trigger] node_view(pre[k]),
                        keys[i - 1],
                    ) by {
                        assert(pre[k] == c[k]);
                        assert(all_le(node_view(c[k]), keys[k]));
                        assert(keys[k] <= keys[i - 1]);
                    }
                    lemma_children_view_le(pre, keys[i - 1]);
                }
                if i < keys.len() {
                    assert forall|k: int| 0 <= k < suf.len() implies all_ge(
                        #[trigger] node_view(suf[k]),
                        keys[i as int],
                    ) by {
                        assert(suf[k] == c[i + 1 + k]);
                        assert(all_ge(node_view(c[i + 1 + k]), keys[i + k]));
                        assert(keys[i as int] <= keys[i + k]);
                    }
                    lemma_children_view_ge(suf, keys[i as int]);
                }
                let a = children_view(pre);
                let w = node_view(c[i as int]);
                let b = children_view(suf);
                let v = node_view(*node);
                assert(v == children_view(c));
                assert(v == a + w + b);
                assert forall|k: int| 0 <= k < base + a.len() implies #[trigger] s[k] < *value by {
                    if k >= base {
                        assert(s[k] == v[k - base]);
                        assert(v[k - base] == a[k - base]);
                        assert(a[k - base] <= keys[i - 1]);
                    }
                }
                assert forall|k: int| base + a.len() + w.len() <= k < s.len() implies *value
                    <= #[trigger] s[k] by {
                    if k < base + a.len() + w.len() + b.len() {
                        assert(s[k] == v[k - base]);
                        assert(v[k - base] == b[k - base - a.len() - w.len()]);
                        assert(keys[i as int] <= b[k - base - a.len() - w.len()]);
                    }
                }
                assert(w =~= v.subrange(a.len() as int, (a.len() + w.len()) as int));
                assert(w =~= s.subrange(base + a.len(), base + a.len() + w.len()));
            }
            base = base + before;
            node = &subtree.children[i];
            proof {
                hh = (hh - 1) as nat;
            }
        }
        let leaf = node.unwrap_as_leaf();
        let mut p: usize = 0;
        while p < leaf.values.len() && leaf.values[p] < *value
            invariant
                p <= leaf.values@.len(),
                leaf.values@ == node_view(*node),
                forall|j: int| 0 <= j < p ==> #[trigger] leaf.values@[j] < *value,
            decreases leaf.values@.len() - p,
        {
            p = p + 1;
        }
        proof {
            let w = leaf.values@;
            assert forall|j: int| 0 <= j < base + p implies #[trigger] s[j] < *value by {
                if j >= base {
                    assert(s[j] == w[j - base]);
                }
            }
            assert forall|j: int| base + p <= j < s.len() implies *value <= #[trigger] s[j] by {
                if j < base + w.len() {
                    assert(s[j] == w[j - base]);
                    assert(w[p as int] <= w[j - base]);
                }
            }
        }
        base + p
    }
}

} // verus!
