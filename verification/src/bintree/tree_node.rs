//! A node of a binary tree that holds a value and owns its children.
use vstd::prelude::*;

verus! {

/// A node of a binary tree: a value, a visited mark and two optional children.
#[derive(Debug)]
pub struct TreeNode {
    value: usize,
    visited: bool,
    left: Option<Box<TreeNode>>,
    right: Option<Box<TreeNode>>,
}

impl TreeNode {
    /// The value.
    pub closed spec fn val(&self) -> usize {
        self.value
    }

    /// The visited mark.
    pub closed spec fn marked(&self) -> bool {
        self.visited
    }

    /// The value of the left child, if there is one.
    pub closed spec fn left_val(&self) -> Option<usize> {
        match self.left {
            Some(n) => Some(n.value),
            None => None,
        }
    }

    /// The value of the right child, if there is one.
    pub closed spec fn right_val(&self) -> Option<usize> {
        match self.right {
            Some(n) => Some(n.value),
            None => None,
        }
    }

    /// A node holding `val`, not visited, without children.
    pub fn new(val: usize) -> (r: Self)
        ensures
            r.val() == val,
            !r.marked(),
            r.left_val() is None,
            r.right_val() is None,
    {
        Self { value: val, visited: false, left: None, right: None }
    }

    /// Replaces the value with `val` and returns it.
    pub fn set_value(&mut self, val: usize) -> (r: usize)
        ensures
            r == val,
            final(self).val() == val,
            final(self).marked() == old(self).marked(),
            final(self).left_val() == old(self).left_val(),
            final(self).right_val() == old(self).right_val(),
    {
        self.value = val;
        self.value
    }

    /// The value.
    pub fn get_value(&self) -> (r: usize)
        ensures
            r == self.val(),
    {
        self.value
    }

    /// Marks the node visited.
    pub fn visit(&mut self)
        ensures
            final(self).marked(),
            final(self).val() == old(self).val(),
            final(self).left_val() == old(self).left_val(),
            final(self).right_val() == old(self).right_val(),
    {
        self.visited = true;
    }

    /// Whether the node is marked visited.
    pub fn is_visited(&self) -> (r: bool)
        ensures
            r == self.marked(),
    {
        self.visited
    }

    /// The value of the left child, if there is one.
    pub fn left_value(&self) -> (r: Option<usize>)
        ensures
            r == self.left_val(),
    {
        match &self.left {
            Some(n) => Some(n.value),
            None => None,
        }
    }

    /// The value of the right child, if there is one.
    pub fn right_value(&self) -> (r: Option<usize>)
        ensures
            r == self.right_val(),
    {
        match &self.right {
            Some(n) => Some(n.value),
            None => None,
        }
    }

    /// Adds a left child holding `val`; fails when there is one already.
    pub fn insert_left(&mut self, val: usize) -> (r: Result<usize, &'static str>)
        ensures
            old(self).left_val() is Some ==> r == Err::<usize, &'static str>("falut occured in insert_left.") && *final(self) == *old(self),
            old(self).left_val() is None ==> {
                &&& r == Ok::<usize, &'static str>(val)
                &&& final(self).left_val() == Some(val)
                &&& final(self).right_val() == old(self).right_val()
                &&& final(self).val() == old(self).val()
                &&& final(self).marked() == old(self).marked()
            },
    {
        match self.left {
            Some(_) => Err("falut occured in insert_left."),
            None => {
                let left = TreeNode::new(val);
                self.left = Some(Box::new(left));
                Ok(val)
            },
        }
    }

    /// Adds a right child holding `val`; fails when there is one already.
    pub fn insert_right(&mut self, val: usize) -> (r: Result<usize, &'static str>)
        ensures
            old(self).right_val() is Some ==> r == Err::<usize, &'static str>("falut occured in insert_right.") && *final(self) == *old(self),
            old(self).right_val() is None ==> {
                &&& r == Ok::<usize, &'static str>(val)
                &&& final(self).right_val() == Some(val)
                &&& final(self).left_val() == old(self).left_val()
                &&& final(self).val() == old(self).val()
                &&& final(self).marked() == old(self).marked()
            },
    {
        match self.right {
            Some(_) => Err("falut occured in insert_right."),
            None => {
                let right = TreeNode::new(val);
                self.right = Some(Box::new(right));
                Ok(val)
            },
        }
    }

    /// Removes the left child and returns its value; fails when there is none.
    pub fn delete_left(&mut self) -> (r: Result<usize, &'static str>)
        ensures
            old(self).left_val() is None ==> r == Err::<usize, &'static str>("falut occured in delete_left.") && *final(self) == *old(self),
            old(self).left_val() matches Some(v) ==> {
                &&& r == Ok::<usize, &'static str>(v)
                &&& final(self).left_val() is None
                &&& final(self).right_val() == old(self).right_val()
                &&& final(self).val() == old(self).val()
                &&& final(self).marked() == old(self).marked()
            },
    {
        match self.left.take() {
            Some(left_leaf) => Ok(left_leaf.value),
            None => Err("falut occured in delete_left."),
        }
    }

    /// Removes the right child and returns its value; fails when there is none.
    pub fn delete_right(&mut self) -> (r: Result<usize, &'static str>)
        ensures
            old(self).right_val() is None ==> r == Err::<usize, &'static str>("falut occured in delete_right.") && *final(self) == *old(self),
            old(self).right_val() matches Some(v) ==> {
                &&& r == Ok::<usize, &'static str>(v)
                &&& final(self).right_val() is None
                &&& final(self).left_val() == old(self).left_val()
                &&& final(self).val() == old(self).val()
                &&& final(self).marked() == old(self).marked()
            },
    {
        match self.right.take() {
            Some(right_leaf) => Ok(right_leaf.value),
            None => Err("falut occured in delete_right."),
        }
    }
}

} // verus!
