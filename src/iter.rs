use vstd::prelude::*;
use crate::tree::BTree;

verus! {

/// A cursor over the values of a tree, in ascending order, that can be
/// consumed from the front and from the back. It holds the ranks of the next
/// value from the front and of the one past the next value from the back.
pub struct BTreeIter<'a> {
    tree: &'a BTree,
    cur_ind: usize,
    end_ind: usize,
}

impl<'a> View for BTreeIter<'a> {
    type V = Seq<i64>;

    /// The values that are still to come, in ascending order.
    closed spec fn view(&self) -> Seq<i64> {
        self.tree@.subrange(self.cur_ind as int, self.end_ind as int)
    }
}

impl<'a> BTreeIter<'a> {
    #[verifier::type_invariant]
    spec fn inv(self) -> bool {
        self.cur_ind <= self.end_ind <= self.tree@.len()
    }

    /// A cursor at rank `cur_ind` of `tree`, running to its end.
    pub(crate) fn new(tree: &'a BTree, cur_ind: usize) -> (r: Self)
        requires
            cur_ind <= tree@.len(),
        ensures
            r@ == tree@.subrange(cur_ind as int, tree@.len() as int),
    {
        let end_ind = tree.len();
        BTreeIter { tree, cur_ind, end_ind }
    }

    /// Takes the smallest value that is still to come.
    pub fn next(&mut self) -> (r: Option<i64>)
        ensures
            old(self)@.len() == 0 ==> r is None && final(self)@ == old(self)@,
            old(self)@.len() > 0 ==> r == Some(old(self)@[0]) && final(self)@ == old(
                self,
            )@.drop_first(),
    {
        proof {
            use_type_invariant(&*self);
        }
        if self.cur_ind < self.end_ind {
            let value = self.tree.get(self.cur_ind).unwrap();
            *self = BTreeIter { tree: self.tree, cur_ind: self.cur_ind + 1, end_ind: self.end_ind };
            proof {
                assert(self@ =~= old(self)@.drop_first());
            }
            Some(value)
        } else {
            None
        }
    }

    /// Takes the largest value that is still to come.
    pub fn next_back(&mut self) -> (r: Option<i64>)
        ensures
            old(self)@.len() == 0 ==> r is None && final(self)@ == old(self)@,
            old(self)@.len() > 0 ==> r == Some(old(self)@.last()) && final(self)@ == old(
                self,
            )@.drop_last(),
    {
        proof {
            use_type_invariant(&*self);
        }
        if self.cur_ind < self.end_ind {
            let value = self.tree.get(self.end_ind - 1).unwrap();
            *self = BTreeIter { tree: self.tree, cur_ind: self.cur_ind, end_ind: self.end_ind - 1 };
            proof {
                assert(self@ =~= old(self)@.drop_last());
            }
            Some(value)
        } else {
            None
        }
    }

    /// The values still to come, from the front.
    pub fn to_vec(self) -> (r: Vec<i64>)
        ensures
            r@ == self@,
    {
        proof {
            use_type_invariant(&self);
        }
        let ghost all = self@;
        let mut cursor = BTreeIter { tree: self.tree, cur_ind: self.cur_ind, end_ind: self.end_ind };
        let mut out: Vec<i64> = Vec::new();
        loop
            invariant
                out@ + cursor@ == all,
                all == self@,
            decreases cursor@.len(),
        {
            let ghost before = cursor@;
            match cursor.next() {
                Some(value) => {
                    out.push(value);
                    proof {
                        assert(out@ + cursor@ =~= all) by {
                            assert(before =~= seq![value] + cursor@);
                        }
                    }
                },
                None => {
                    proof {
                        assert(out@ + cursor@ =~= out@);
                    }
                    return out;
                },
            }
        }
    }

    /// The values still to come, from the back.
    pub fn to_vec_rev(self) -> (r: Vec<i64>)
        ensures
            r@ == self@.reverse(),
    {
        proof {
            use_type_invariant(&self);
        }
        let ghost all = self@;
        let mut cursor = BTreeIter { tree: self.tree, cur_ind: self.cur_ind, end_ind: self.end_ind };
        let mut out: Vec<i64> = Vec::new();
        loop
            invariant
                cursor@ + out@.reverse() == all,
                all == self@,
            decreases cursor@.len(),
        {
            let ghost before = cursor@;
            match cursor.next_back() {
                Some(value) => {
                    let ghost prev = out@;
                    out.push(value);
                    proof {
                        assert(out@.reverse() =~= seq![value] + prev.reverse());
                        assert(before =~= cursor@ + seq![value]);
                        assert(cursor@ + out@.reverse() =~= all);
                    }
                },
                None => {
                    proof {
                        assert(cursor@ + out@.reverse() =~= out@.reverse());
                        assert(out@.reverse().reverse() =~= out@);
                    }
                    return out;
                },
            }
        }
    }
}

} // verus!
