//! A binary tree that owns its subtrees, and its postorder walk.

use vstd::prelude::*;

verus! {

/// A binary tree: empty, or a value with a left and a right subtree.
#[derive(Debug, PartialEq, Eq)]
pub enum BinTree<T> {
    Nil,
    Node { val: T, left: Box<BinTree<T>>, right: Box<BinTree<T>> },
}

/// The values that a sequence of references points to, in the same order.
pub open spec fn pointees<T>(refs: Seq<&T>) -> Seq<T> {
    Seq::new(refs.len(), |i: int| *refs[i])
}

impl<T> BinTree<T> {
    /// The values of the tree in postorder: the left subtree, the right
    /// subtree, then the node itself.
    pub open spec fn postorder_seq(self) -> Seq<T>
        decreases self,
    {
        match self {
            BinTree::Nil => Seq::empty(),
            BinTree::Node { val, left, right } => (left.postorder_seq()
                + right.postorder_seq()).push(val),
        }
    }

    /// The number of nodes.
    pub open spec fn size(self) -> nat
        decreases self,
    {
        match self {
            BinTree::Nil => 0,
            BinTree::Node { val, left, right } => 1 + left.size() + right.size(),
        }
    }

    /// A postorder walk visits every node once.
    pub proof fn lemma_postorder_len(self)
        ensures
            self.postorder_seq().len() == self.size(),
        decreases self,
    {
        match self {
            BinTree::Nil => {},
            BinTree::Node { val, left, right } => {
                left.lemma_postorder_len();
                right.lemma_postorder_len();
            },
        }
    }

    /// References to the values of the tree, in postorder.
    pub fn postorder(&self) -> (out: Vec<&T>)
        ensures
            pointees(out@) == self.postorder_seq(),
    {
        let mut out: Vec<&T> = Vec::new();
        assert(pointees(out@) =~= Seq::<T>::empty());
        BinTree::<T>::postorder_in(self, &mut out);
        out
    }

    fn postorder_in<'a>(t: &'a BinTree<T>, out: &mut Vec<&'a T>)
        ensures
            pointees(final(out)@) == pointees(old(out)@) + t.postorder_seq(),
        decreases t,
    {
        match t {
            BinTree::<T>::Nil => {
                assert(pointees(out@) =~= pointees(out@) + t.postorder_seq());
            },
            BinTree::<T>::Node { val, left, right } => {
                let ghost before = pointees(out@);
                BinTree::<T>::postorder_in(&**left, out);
                BinTree::<T>::postorder_in(&**right, out);
                let ghost mid = pointees(out@);
                out.push(val);
                assert(pointees(out@) =~= mid.push(*val));
                assert(pointees(out@) =~= before + t.postorder_seq());
            },
        }
    }

    /// A node without children.
    pub fn new_leaf(k: T) -> (t: BinTree<T>)
        ensures
            t == (BinTree::Node { val: k, left: Box::new(BinTree::Nil), right: Box::new(BinTree::Nil) }),
    {
        BinTree::new_node(k, BinTree::<T>::Nil, BinTree::<T>::Nil)
    }

    /// A node with the given value and subtrees.
    pub fn new_node(k: T, l: BinTree<T>, r: BinTree<T>) -> (t: BinTree<T>)
        ensures
            t == (BinTree::Node { val: k, left: Box::new(l), right: Box::new(r) }),
    {
        BinTree::<T>::Node { val: k, left: Box::new(l), right: Box::new(r) }
    }
}

} // verus!
