use vstd::prelude::*;
use vstd::pervasive::unreached;
use vstd::relations::{sorted_by, total_ordering};
use vstd::seq_lib::{group_to_multiset_ensures, lemma_multiset_commutative, lemma_sorted_unique};

verus! {

/// A leaf: one or two values in ascending order.
pub struct BTreeLeaf {
    pub values: Vec<i64>,
}

/// An internal node: two or three children, one separator key fewer than
/// children, and the number of values below it.
pub struct BTreeSubTree {
    pub children: Vec<BTreeNode>,
    pub mid_keys: Vec<i64>,
    pub values_number: usize,
}

impl BTreeLeaf {
    /// A leaf that holds `values`.
    pub fn new(values: Vec<i64>) -> (r: Self)
        ensures
            r.values@ == values@,
    {
        BTreeLeaf { values }
    }
}

/// A node of the tree: a leaf of values or an internal node of children.
pub enum BTreeNode {
    Leaf { leaf: BTreeLeaf },
    SubTree { subtree: BTreeSubTree },
}

impl BTreeSubTree {
    /// An internal node over `children`, split by `mid_keys`, that counts the
    /// values below it.
    pub fn new(children: Vec<BTreeNode>, mid_keys: Vec<i64>) -> (r: Self)
        requires
            forall|i: int|
                0 <= i < children@.len() ==> #[trigger] node_count(children@[i]) == node_view(
                    children@[i],
                ).len(),
            children_view(children@).len() <= usize::MAX,
        ensures
            r.children@ == children@,
            r.mid_keys@ == mid_keys@,
            r.values_number == children_view(children@).len(),
    {
        let mut values_number: usize = 0;
        let mut i: usize = 0;
        while i < children.len()
            invariant
                i <= children@.len(),
                forall|i: int|
                    0 <= i < children@.len() ==> #[trigger] node_count(children@[i]) == node_view(
                        children@[i],
                    ).len(),
                children_view(children@).len() <= usize::MAX,
                values_number == children_view(children@.subrange(0, i as int)).len(),
            decreases children@.len() - i,
        {
            proof {
                let c = children@;
                lemma_children_view_split(c.subrange(0, i + 1), i as int);
                assert(c.subrange(0, i + 1).subrange(0, i as int) =~= c.subrange(0, i as int));
                assert(c.subrange(0, i + 1).subrange(i + 1, i + 1) =~= Seq::<BTreeNode>::empty());
                assert(children_view(Seq::<BTreeNode>::empty()) == Seq::<i64>::empty());
                lemma_children_view_concat(c.subrange(0, i + 1), c.subrange(i + 1, c.len() as int));
                assert(c =~= c.subrange(0, i + 1) + c.subrange(i + 1, c.len() as int));
            }
            values_number = values_number + children[i].values_number();
            i = i + 1;
        }
        assert(children@.subrange(0, i as int) =~= children@);
        BTreeSubTree { children, mid_keys, values_number }
    }

    /// The child that `value` is routed to: with one key `k`, the left child
    /// below `k` and the right one from `k` up; with keys `k0`, `k1`, the first
    /// child below `k0`, the last above `k1`, and the middle one between them.
    pub fn get_children_index_by_value(&self, value: &i64) -> (r: usize)
        requires
            1 <= self.mid_keys@.len() <= 2,
        ensures
            r == child_index(self.mid_keys@, *value),
    {
        if self.mid_keys.len() == 1 {
            if *value < self.mid_keys[0] {
                0
            } else {
                1
            }
        } else {
            if *value < self.mid_keys[0] {
                0
            } else if *value > self.mid_keys[1] {
                2
            } else {
                1
            }
        }
    }
}

impl BTreeNode {
    pub fn is_leaf(&self) -> (r: bool)
        ensures
            r == (*self is Leaf),
    {
        match self {
            BTreeNode::Leaf { .. } => true,
            BTreeNode::SubTree { .. } => false,
        }
    }

    pub fn is_node(&self) -> (r: bool)
        ensures
            r == (*self is SubTree),
    {
        !self.is_leaf()
    }

    pub fn unwrap_as_leaf(&self) -> (r: &BTreeLeaf)
        requires
            *self is Leaf,
        ensures
            *r == self->leaf,
    {
        match self {
            BTreeNode::Leaf { leaf } => leaf,
            BTreeNode::SubTree { .. } => unreached(),
        }
    }

    pub fn unwrap_as_leaf_mut(&mut self) -> (r: &mut BTreeLeaf)
        requires
            *old(self) is Leaf,
        ensures
            *r == old(self)->leaf,
            *final(self) == (BTreeNode::Leaf { leaf: *final(r) }),
    {
        match self {
            BTreeNode::Leaf { leaf } => leaf,
            BTreeNode::SubTree { .. } => unreached(),
        }
    }

    pub fn unwrap_as_subtree(&self) -> (r: &BTreeSubTree)
        requires
            *self is SubTree,
        ensures
            *r == self->subtree,
    {
        match self {
            BTreeNode::SubTree { subtree } => subtree,
            BTreeNode::Leaf { .. } => unreached(),
        }
    }

    pub fn unwrap_as_subtree_mut(&mut self) -> (r: &mut BTreeSubTree)
        requires
            *old(self) is SubTree,
        ensures
            *r == old(self)->subtree,
            *final(self) == (BTreeNode::SubTree { subtree: *final(r) }),
    {
        match self {
            BTreeNode::SubTree { subtree } => subtree,
            BTreeNode::Leaf { .. } => unreached(),
        }
    }

    /// The values of a leaf, or the separator keys of an internal node.
    pub fn get_values(&self) -> (r: &Vec<i64>)
        ensures
            *r == match *self {
                BTreeNode::Leaf { leaf } => leaf.values,
                BTreeNode::SubTree { subtree } => subtree.mid_keys,
            },
    {
        match self {
            BTreeNode::Leaf { leaf } => &leaf.values,
            BTreeNode::SubTree { subtree } => &subtree.mid_keys,
        }
    }

    /// The values of a leaf, or the separator keys of an internal node, to change.
    pub fn get_values_mut(&mut self) -> (r: &mut Vec<i64>)
        ensures
            *old(self) is Leaf ==> *r == old(self)->leaf.values && *final(self) == (BTreeNode::Leaf {
                leaf: BTreeLeaf { values: *final(r) },
            }),
            *old(self) is SubTree ==> *r == old(self)->subtree.mid_keys && *final(self) == (
            BTreeNode::SubTree {
                subtree: BTreeSubTree {
                    children: old(self)->subtree.children,
                    mid_keys: *final(r),
                    values_number: old(self)->subtree.values_number,
                },
            }),
    {
        match self {
            BTreeNode::Leaf { leaf } => &mut leaf.values,
            BTreeNode::SubTree { subtree } => &mut subtree.mid_keys,
        }
    }

    /// How many values lie below this node, as the node records it.
    pub fn values_number(&self) -> (r: usize)
        ensures
            r == node_count(*self),
    {
        match self {
            BTreeNode::Leaf { leaf } => leaf.values.len(),
            BTreeNode::SubTree { subtree } => subtree.values_number,
        }
    }
}

/// The number of values that a node records for itself.
pub open spec fn node_count(n: BTreeNode) -> nat {
    match n {
        BTreeNode::Leaf { leaf } => leaf.values@.len(),
        BTreeNode::SubTree { subtree } => subtree.values_number as nat,
    }
}

/// The child of an internal node with keys `keys` that the value `v` is routed to.
pub open spec fn child_index(keys: Seq<i64>, v: i64) -> int {
    if keys.len() == 1 {
        if v < keys[0] {
            0
        } else {
            1
        }
    } else if v < keys[0] {
        0
    } else if v > keys[1] {
        2
    } else {
        1
    }
}

/// The values below a node, left to right.
pub open spec fn node_view(n: BTreeNode) -> Seq<i64>
    decreases n,
{
    match n {
        BTreeNode::Leaf { leaf } => leaf.values@,
        BTreeNode::SubTree { subtree } => children_view(subtree.children@),
    }
}

/// The values below a run of sibling nodes, left to right.
pub open spec fn children_view(s: Seq<BTreeNode>) -> Seq<i64>
    decreases s,
{
    if s.len() == 0 {
        Seq::empty()
    } else {
        children_view(s.drop_last()) + node_view(s.last())
    }
}

/// `s` is in non-decreasing order.
pub open spec fn sorted(s: Seq<i64>) -> bool {
    forall|i: int, j: int| 0 <= i <= j < s.len() ==> s[i] <= s[j]
}

/// The order in which values are kept: ascending, equal values side by side.
pub open spec fn ascending() -> spec_fn(i64, i64) -> bool {
    |a: i64, b: i64| a <= b
}

/// The values of `s`, each as often as it occurs there, in ascending order.
pub open spec fn sorted_of(s: Seq<i64>) -> Seq<i64> {
    s.sort_by(ascending())
}

/// `sorted_of(s)` is sorted and holds the values of `s`; it is the one
/// sequence that does both.
pub proof fn lemma_sorted_of(s: Seq<i64>)
    ensures
        sorted(sorted_of(s)),
        sorted_of(s).to_multiset() == s.to_multiset(),
        forall|t: Seq<i64>|
            sorted(t) && t.to_multiset() == s.to_multiset() ==> t == #[trigger] sorted_of(s),
{
    let leq = ascending();
    assert(total_ordering(leq));
    s.lemma_sort_by_ensures(leq);
    let r = sorted_of(s);
    assert(sorted_by(r, leq));
    assert(sorted(r)) by {
        assert forall|i: int, j: int| 0 <= i <= j < r.len() implies r[i] <= r[j] by {
            if i < j {
                assert(leq(r[i], r[j]));
            }
        }
    }
    assert forall|t: Seq<i64>|
        sorted(t) && t.to_multiset() == s.to_multiset() implies t == #[trigger] sorted_of(s) by {
        assert(sorted_by(t, leq)) by {
            assert forall|i: int, j: int| 0 <= i < j < t.len() implies #[trigger] leq(t[i], t[j]) by {
                assert(t[i] <= t[j]);
            }
        }
        lemma_sorted_unique(t, r, leq);
    }
}

/// Every value of `s` is at most `k`.
pub open spec fn all_le(s: Seq<i64>, k: i64) -> bool {
    forall|j: int| 0 <= j < s.len() ==> s[j] <= k
}

/// Every value of `s` is at least `k`.
pub open spec fn all_ge(s: Seq<i64>, k: i64) -> bool {
    forall|j: int| 0 <= j < s.len() ==> k <= s[j]
}

/// Separator key `i` lies between the values of child `i` and those of child `i + 1`.
pub open spec fn separated(children: Seq<BTreeNode>, keys: Seq<i64>) -> bool {
    forall|i: int|
        #![trigger keys[i]]
        0 <= i < keys.len() ==> all_le(node_view(children[i]), keys[i]) && all_ge(
            node_view(children[i + 1]),
            keys[i],
        )
}

/// A well-formed node of height `h`: leaves of one or two sorted values, all at
/// depth `h`; internal nodes of two or three children with separating keys and
/// an exact count of the values below them.
pub open spec fn node_wf(n: BTreeNode, h: nat) -> bool
    decreases h,
{
    match n {
        BTreeNode::Leaf { leaf } => h == 0 && 1 <= leaf.values@.len() <= 2 && sorted(leaf.values@),
        BTreeNode::SubTree { subtree } => {
            &&& h > 0
            &&& 2 <= subtree.children@.len() <= 3
            &&& subtree.mid_keys@.len() + 1 == subtree.children@.len()
            &&& node_wf(subtree.children@[0], (h - 1) as nat)
            &&& node_wf(subtree.children@[1], (h - 1) as nat)
            &&& subtree.children@.len() == 3 ==> node_wf(subtree.children@[2], (h - 1) as nat)
            &&& subtree.values_number == children_view(subtree.children@).len()
            &&& separated(subtree.children@, subtree.mid_keys@)
        },
    }
}

/// `new` is `old` with `v` added, in ascending order.
pub open spec fn inserted(old: Seq<i64>, new: Seq<i64>, v: i64) -> bool {
    &&& new.to_multiset() == old.to_multiset().insert(v)
    &&& sorted(new)
}

/// What inserting `v` into a node of height `h` that held `old` leaves behind:
/// the node itself, or the node and a new right sibling split off at key `k`.
pub open spec fn insert_outcome(
    n: BTreeNode,
    r: Option<(i64, BTreeNode)>,
    h: nat,
    old: Seq<i64>,
    v: i64,
) -> bool {
    match r {
        None => node_wf(n, h) && inserted(old, node_view(n), v),
        Some((k, right)) => {
            &&& node_wf(n, h)
            &&& node_wf(right, h)
            &&& all_le(node_view(n), k)
            &&& all_ge(node_view(right), k)
            &&& inserted(old, node_view(n) + node_view(right), v)
        },
    }
}

pub proof fn lemma_children_view_concat(a: Seq<BTreeNode>, b: Seq<BTreeNode>)
    ensures
        children_view(a + b) == children_view(a) + children_view(b),
    decreases b.len(),
{
    if b.len() == 0 {
        assert(a + b =~= a);
        assert(children_view(a) + children_view(b) =~= children_view(a));
    } else {
        lemma_children_view_concat(a, b.drop_last());
        assert((a + b).drop_last() =~= a + b.drop_last());
        assert((a + b).last() == b.last());
        assert(children_view(a) + children_view(b) =~= children_view(a) + children_view(
            b.drop_last(),
        ) + node_view(b.last()));
    }
}

pub proof fn lemma_children_view_one(x: BTreeNode)
    ensures
        children_view(seq![x]) == node_view(x),
{
    assert(seq![x].drop_last() =~= Seq::<BTreeNode>::empty());
    assert(children_view(Seq::<BTreeNode>::empty()) == Seq::<i64>::empty());
    assert(children_view(seq![x]) =~= node_view(x));
}

/// The values below siblings, cut around the child at `i`.
pub proof fn lemma_children_view_split(c: Seq<BTreeNode>, i: int)
    requires
        0 <= i < c.len(),
    ensures
        children_view(c) == children_view(c.subrange(0, i)) + node_view(c[i]) + children_view(
            c.subrange(i + 1, c.len() as int),
        ),
{
    lemma_children_view_one(c[i]);
    lemma_children_view_concat(c.subrange(0, i), seq![c[i]]);
    lemma_children_view_concat(c.subrange(0, i) + seq![c[i]], c.subrange(i + 1, c.len() as int));
    assert(c =~= c.subrange(0, i) + seq![c[i]] + c.subrange(i + 1, c.len() as int));
}

/// Putting `m` in place of `n` between `p` and `s` adds `v` to the multiset
/// of values when `m` is `n` with `v` added.
pub proof fn lemma_replace_multiset(p: Seq<i64>, n: Seq<i64>, m: Seq<i64>, s: Seq<i64>, v: i64)
    requires
        m.to_multiset() == n.to_multiset().insert(v),
    ensures
        (p + m + s).to_multiset() == (p + n + s).to_multiset().insert(v),
{
    broadcast use vstd::multiset::group_multiset_axioms;

    lemma_multiset_commutative(p, m);
    lemma_multiset_commutative(p + m, s);
    lemma_multiset_commutative(p, n);
    lemma_multiset_commutative(p + n, s);
    assert((p + m + s).to_multiset() =~= (p + n + s).to_multiset().insert(v));
}

/// The values below the first `i + 1` siblings: those below the first `i`
/// and those below sibling `i`; no more than below all of them.
pub proof fn lemma_children_view_prefix(c: Seq<BTreeNode>, i: int)
    requires
        0 <= i < c.len(),
    ensures
        children_view(c.subrange(0, i + 1)) == children_view(c.subrange(0, i)) + node_view(c[i]),
        children_view(c.subrange(0, i + 1)).len() <= children_view(c).len(),
{
    assert(c.subrange(0, i + 1).drop_last() =~= c.subrange(0, i));
    lemma_children_view_concat(c.subrange(0, i + 1), c.subrange(i + 1, c.len() as int));
    assert(c =~= c.subrange(0, i + 1) + c.subrange(i + 1, c.len() as int));
}

/// The values below two, three or four siblings, written out.
pub proof fn lemma_children_view_unfold(c: Seq<BTreeNode>)
    requires
        2 <= c.len() <= 4,
    ensures
        c.len() == 2 ==> children_view(c) == node_view(c[0]) + node_view(c[1]),
        c.len() == 3 ==> children_view(c) == node_view(c[0]) + node_view(c[1]) + node_view(c[2]),
        c.len() == 4 ==> children_view(c) == node_view(c[0]) + node_view(c[1]) + node_view(c[2])
            + node_view(c[3]),
{
    lemma_children_view_one(c[0]);
    lemma_children_view_one(c[1]);
    lemma_children_view_one(c[2]);
    lemma_children_view_one(c[3]);
    let p = seq![c[0]];
    lemma_children_view_concat(p, seq![c[1]]);
    assert(c.subrange(0, 2) =~= p + seq![c[1]]);
    if c.len() == 2 {
        assert(c =~= p + seq![c[1]]);
    } else {
        let q = p + seq![c[1]];
        lemma_children_view_concat(q, seq![c[2]]);
        if c.len() == 3 {
            assert(c =~= q + seq![c[2]]);
        } else {
            let r = q + seq![c[2]];
            lemma_children_view_concat(r, seq![c[3]]);
            assert(c =~= r + seq![c[3]]);
        }
    }
}

pub proof fn lemma_sorted_concat(a: Seq<i64>, b: Seq<i64>, k: i64)
    requires
        sorted(a),
        sorted(b),
        all_le(a, k),
        all_ge(b, k),
    ensures
        sorted(a + b),
{
    assert forall|i: int, j: int| 0 <= i <= j < (a + b).len() implies (a + b)[i] <= (a + b)[j] by {
        if j < a.len() {
        } else if i >= a.len() {
            assert((a + b)[i] == b[i - a.len()]);
            assert((a + b)[j] == b[j - a.len()]);
        } else {
            assert(a[i] <= k);
            assert(k <= b[j - a.len()]);
        }
    }
}

/// The children of a well-formed internal node are well formed, one level lower.
pub proof fn lemma_child_wf(n: BTreeNode, h: nat, i: int)
    requires
        node_wf(n, h),
        n is SubTree,
        0 <= i < n->subtree.children@.len(),
    ensures
        h > 0,
        node_wf(n->subtree.children@[i], (h - 1) as nat),
{
}

/// A well-formed node records the number of values below it.
pub proof fn lemma_wf_count(n: BTreeNode, h: nat)
    requires
        node_wf(n, h),
    ensures
        node_count(n) == node_view(n).len(),
{
}

/// A well-formed node holds at least one value, in ascending order.
pub proof fn lemma_wf_sorted(n: BTreeNode, h: nat)
    requires
        node_wf(n, h),
    ensures
        sorted(node_view(n)),
        node_view(n).len() >= 1,
    decreases h,
{
    if n is SubTree {
        let c = n->subtree.children@;
        let k = n->subtree.mid_keys@;
        lemma_child_wf(n, h, 0);
        lemma_child_wf(n, h, 1);
        lemma_wf_sorted(c[0], (h - 1) as nat);
        lemma_wf_sorted(c[1], (h - 1) as nat);
        lemma_children_view_unfold(c);
        lemma_sorted_concat(node_view(c[0]), node_view(c[1]), k[0]);
        if c.len() == 3 {
            lemma_child_wf(n, h, 2);
            lemma_wf_sorted(c[2], (h - 1) as nat);
            let ab = node_view(c[0]) + node_view(c[1]);
            assert(node_view(c[1])[0] <= k[1]);
            assert(all_le(ab, k[1])) by {
                assert forall|j: int| 0 <= j < ab.len() implies ab[j] <= k[1] by {
                    if j < node_view(c[0]).len() {
                        assert(ab[j] <= k[0]);
                        assert(k[0] <= node_view(c[1])[0]);
                    } else {
                        assert(ab[j] == node_view(c[1])[j - node_view(c[0]).len()]);
                    }
                }
            }
            lemma_sorted_concat(ab, node_view(c[2]), k[1]);
        }
    }
}

/// Adding one value makes a sequence one longer.
pub proof fn lemma_inserted_len(old: Seq<i64>, new: Seq<i64>, v: i64)
    requires
        new.to_multiset() == old.to_multiset().insert(v),
    ensures
        new.len() == old.len() + 1,
{
    broadcast use group_to_multiset_ensures;
    broadcast use vstd::multiset::group_multiset_axioms;

    assert(new.to_multiset().len() == new.len());
    assert(old.to_multiset().len() == old.len());
}

/// The keys of a well-formed internal node are in ascending order.
pub proof fn lemma_keys_sorted(n: BTreeNode, h: nat)
    requires
        node_wf(n, h),
        n is SubTree,
    ensures
        n->subtree.mid_keys@.len() == 2 ==> n->subtree.mid_keys@[0] <= n->subtree.mid_keys@[1],
{
    let c = n->subtree.children@;
    let k = n->subtree.mid_keys@;
    if k.len() == 2 {
        lemma_child_wf(n, h, 1);
        lemma_wf_sorted(c[1], (h - 1) as nat);
        assert(k[0] <= node_view(c[1])[0]);
        assert(node_view(c[1])[0] <= k[1]);
    }
}

/// A node that is well formed at some height.
pub open spec fn node_valid(n: BTreeNode) -> bool {
    exists|h: nat| node_wf(n, h)
}

/// Every child of a well-formed internal node is well formed one level lower
/// and records the number of values below it.
pub proof fn lemma_children_wf(n: BTreeNode, h: nat)
    requires
        node_wf(n, h),
        n is SubTree,
    ensures
        h > 0,
        forall|i: int|
            0 <= i < n->subtree.children@.len() ==> #[trigger] node_wf(
                n->subtree.children@[i],
                (h - 1) as nat,
            ) && node_count(n->subtree.children@[i]) == node_view(n->subtree.children@[i]).len(),
{
    assert forall|i: int| 0 <= i < n->subtree.children@.len() implies #[trigger] node_wf(
        n->subtree.children@[i],
        (h - 1) as nat,
    ) && node_count(n->subtree.children@[i]) == node_view(n->subtree.children@[i]).len() by {
        lemma_child_wf(n, h, i);
        lemma_wf_count(n->subtree.children@[i], (h - 1) as nat);
    }
}

/// A bound that holds of every child holds of all the values below them.
pub proof fn lemma_children_view_le(c: Seq<BTreeNode>, k: i64)
    requires
        forall|j: int| 0 <= j < c.len() ==> all_le(#[trigger] node_view(c[j]), k),
    ensures
        all_le(children_view(c), k),
    decreases c.len(),
{
    if c.len() > 0 {
        lemma_children_view_le(c.drop_last(), k);
        assert(all_le(node_view(c[c.len() - 1]), k));
        let a = children_view(c.drop_last());
        let b = node_view(c.last());
        assert forall|j: int| 0 <= j < (a + b).len() implies #[trigger] (a + b)[j] <= k by {
            if j >= a.len() {
                assert((a + b)[j] == b[j - a.len()]);
            }
        }
    }
}

/// A lower bound that holds of every child holds of all the values below them.
pub proof fn lemma_children_view_ge(c: Seq<BTreeNode>, k: i64)
    requires
        forall|j: int| 0 <= j < c.len() ==> all_ge(#[trigger] node_view(c[j]), k),
    ensures
        all_ge(children_view(c), k),
    decreases c.len(),
{
    if c.len() > 0 {
        lemma_children_view_ge(c.drop_last(), k);
        assert(all_ge(node_view(c[c.len() - 1]), k));
        let a = children_view(c.drop_last());
        let b = node_view(c.last());
        assert forall|j: int| 0 <= j < (a + b).len() implies k <= #[trigger] (a + b)[j] by {
            if j >= a.len() {
                assert((a + b)[j] == b[j - a.len()]);
            }
        }
    }
}

/// Bounds that held of every old value and of the inserted one hold of every new value.
pub proof fn lemma_inserted_bounds(old: Seq<i64>, new: Seq<i64>, v: i64, lo: i64, hi: i64)
    requires
        new.to_multiset() == old.to_multiset().insert(v),
        all_ge(old, lo),
        all_le(old, hi),
        lo <= v <= hi,
    ensures
        all_ge(new, lo),
        all_le(new, hi),
{
    broadcast use group_to_multiset_ensures;
    broadcast use vstd::multiset::group_multiset_axioms;

    assert forall|j: int| 0 <= j < new.len() implies lo <= #[trigger] new[j] <= hi by {
        let x = new[j];
        assert(new.contains(x));
        assert(new.to_multiset().count(x) > 0);
        if x != v {
            assert(old.to_multiset().count(x) > 0);
            assert(old.contains(x));
        }
    }
}

} // verus!
