//! An owning binary tree with a safe downward cursor.
//!
//! Every edge exclusively owns its child subtree; there are no cycles and
//! no back pointers.  Downward mutation is done by recursion (see
//! [`crate::wavelet`]); the read-only [`Cursor`] walks a borrowed tree
//! without surrendering the root.

use vstd::prelude::*;

verus! {

/// A child branch of a [`Tree`].
#[derive(Clone, Copy, Debug, PartialEq, Eq, Structural)]
pub enum Branch {
    Left,
    Right,
}

/// A binary tree with nodes labelled with `T`.
#[derive(Debug)]
pub struct Tree<T> {
    pub value: T,
    pub left: Option<Box<Tree<T>>>,
    pub right: Option<Box<Tree<T>>>,
}

/// A rose tree: values at the fringe, unbounded fan-out within.
pub enum Rose<T> {
    Leaves(Vec<T>),
    Nodes(Vec<Rose<T>>),
}

impl<T> Tree<T> {
    /// A leaf holding `value`.
    pub fn singleton(value: T) -> (r: Tree<T>)
        ensures
            r.value == value,
            r.left is None,
            r.right is None,
    {
        Tree { value, left: None, right: None }
    }

    /// The child on the named side.
    pub open spec fn spec_branch(&self, branch: Branch) -> Option<Box<Tree<T>>> {
        match branch {
            Branch::Left => self.left,
            Branch::Right => self.right,
        }
    }

    /// A reference to the child on the named side.
    pub fn branch(&self, branch: Branch) -> (r: &Option<Box<Tree<T>>>)
        ensures
            *r == self.spec_branch(branch),
    {
        match branch {
            Branch::Left => &self.left,
            Branch::Right => &self.right,
        }
    }

    /// A mutable reference to the child on the named side; the rest of the
    /// node is untouched.
    pub fn branch_mut(&mut self, branch: Branch) -> (r: &mut Option<Box<Tree<T>>>)
        ensures
            *r == old(self).spec_branch(branch),
            final(self).value == old(self).value,
            branch is Left ==> final(self).left == *final(r) && final(self).right == old(
                self,
            ).right,
            branch is Right ==> final(self).right == *final(r) && final(self).left == old(
                self,
            ).left,
    {
        match branch {
            Branch::Left => &mut self.left,
            Branch::Right => &mut self.right,
        }
    }
}

/// `b` has the shape of `a` with every node's value a valid output of `f`
/// on the corresponding value of `a`.
pub open spec fn tree_map_rel<T, V, F: Fn(&T) -> V>(f: F, a: Tree<T>, b: Tree<V>) -> bool
    decreases a,
{
    &&& call_ensures(f, (&a.value,), b.value)
    &&& match (a.left, b.left) {
        (None, None) => true,
        (Some(x), Some(y)) => tree_map_rel(f, *x, *y),
        _ => false,
    }
    &&& match (a.right, b.right) {
        (None, None) => true,
        (Some(x), Some(y)) => tree_map_rel(f, *x, *y),
        _ => false,
    }
}

impl<T> Tree<T> {
    /// A tree of the same shape whose values are `f` of this tree's
    /// values.
    pub fn map<V, F: Fn(&T) -> V>(&self, f: &F) -> (r: Tree<V>)
        requires
            forall|x: &T| call_requires(*f, (x,)),
        ensures
            tree_map_rel(*f, *self, r),
        decreases *self,
    {
        let value = f(&self.value);
        let left = match &self.left {
            Some(c) => Some(Box::new(c.map(f))),
            None => None,
        };
        let right = match &self.right {
            Some(c) => Some(Box::new(c.map(f))),
            None => None,
        };
        Tree { value, left, right }
    }

    /// Like [`Tree::map`], but consumes the tree and hands each value to
    /// `f` by value.
    pub fn map_move<V, F: Fn(T) -> V>(self, f: &F) -> (r: Tree<V>)
        requires
            forall|x: T| call_requires(*f, (x,)),
        ensures
            tree_map_move_rel(*f, self, r),
        decreases self,
    {
        let Tree { value, left, right } = self;
        let value = f(value);
        let left = match left {
            Some(c) => Some(Box::new(c.map_move(f))),
            None => None,
        };
        let right = match right {
            Some(c) => Some(Box::new(c.map_move(f))),
            None => None,
        };
        Tree { value, left, right }
    }
}

/// The by-value counterpart of [`tree_map_rel`].
pub open spec fn tree_map_move_rel<T, V, F: Fn(T) -> V>(f: F, a: Tree<T>, b: Tree<V>) -> bool
    decreases a,
{
    &&& call_ensures(f, (a.value,), b.value)
    &&& match (a.left, b.left) {
        (None, None) => true,
        (Some(x), Some(y)) => tree_map_move_rel(f, *x, *y),
        _ => false,
    }
    &&& match (a.right, b.right) {
        (None, None) => true,
        (Some(x), Some(y)) => tree_map_move_rel(f, *x, *y),
        _ => false,
    }
}

/// A read-only navigator over a borrowed [`Tree`]: it can step down any
/// present branch and return to the root at any time.
pub struct Cursor<'a, T> {
    root: &'a Tree<T>,
    node: &'a Tree<T>,
}

impl<'a, T> Cursor<'a, T> {
    /// The tree the cursor was created over.
    pub closed spec fn root_spec(&self) -> Tree<T> {
        *self.root
    }

    /// The node the cursor currently points at.
    pub closed spec fn node_spec(&self) -> Tree<T> {
        *self.node
    }

    /// A cursor pointing at the root of `tree`.
    pub fn new(tree: &'a Tree<T>) -> (r: Cursor<'a, T>)
        ensures
            r.root_spec() == *tree,
            r.node_spec() == *tree,
    {
        Cursor { root: tree, node: tree }
    }

    /// Steps the cursor back to the root.
    pub fn back_to_root(&mut self)
        ensures
            final(self).root_spec() == old(self).root_spec(),
            final(self).node_spec() == old(self).root_spec(),
    {
        self.node = self.root;
    }

    /// Descends into the named child, which must be present.
    pub fn step(&mut self, branch: Branch)
        requires
            old(self).node_spec().spec_branch(branch) is Some,
        ensures
            final(self).root_spec() == old(self).root_spec(),
            Some(Box::new(final(self).node_spec())) == old(self).node_spec().spec_branch(branch),
    {
        let n = self.node;
        match branch {
            Branch::Left => {
                match &n.left {
                    Some(child) => {
                        self.node = child;
                    },
                    None => {},
                }
            },
            Branch::Right => {
                match &n.right {
                    Some(child) => {
                        self.node = child;
                    },
                    None => {},
                }
            },
        }
    }

    /// A reference to the current node's value.
    pub fn value(&self) -> (r: &T)
        ensures
            *r == self.node_spec().value,
    {
        &self.node.value
    }

    /// A reference to the current node.
    pub fn node(&self) -> (r: &Tree<T>)
        ensures
            *r == self.node_spec(),
    {
        self.node
    }

    /// Gives the borrowed tree back to the caller.
    pub fn finish(self) -> (r: &'a Tree<T>)
        ensures
            *r == self.root_spec(),
    {
        self.root
    }
}

} // verus!
