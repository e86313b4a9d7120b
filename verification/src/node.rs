//! The nodes of the tree as they lie in memory, and the walks that look a key
//! up and put a payload in.

use vstd::prelude::*;
use crate::error::{OctreeError, OctreeResult};
use crate::morton::octal;
use crate::tree::{lemma_no_children, levels_left, no_children, Tree};

verus! {

/// A node: nothing, a payload, or eight children.
pub enum TreeNode<Data> {
    /// A payload, at the lowest level of the tree.
    Leaf(Data),
    /// The eight children of an inner node, by octant.
    Branch(Vec<TreeNode<Data>>),
    /// Nothing was ever put in below this place.
    Empty,
}

impl<Data> View for TreeNode<Data> {
    type V = Tree<Data>;

    /// The tree that this node and the nodes below it make up.
    open spec fn view(&self) -> Tree<Data>
        decreases self, 0nat,
    {
        match self {
            TreeNode::Leaf(data) => Tree::Leaf(*data),
            TreeNode::Branch(children) => Tree::Branch(
                TreeNode::trees_of(children@, children@.len()),
            ),
            TreeNode::Empty => Tree::Empty,
        }
    }
}

impl<Data> TreeNode<Data> {
    /// The trees of the first `n` of `children`, in their order.
    pub open spec fn trees_of(children: Seq<TreeNode<Data>>, n: nat) -> Seq<Tree<Data>>
        decreases children, n,
    {
        if n == 0 || n > children.len() {
            Seq::empty()
        } else {
            Self::trees_of(children, (n - 1) as nat).push(children[n - 1]@)
        }
    }

    /// `trees_of` has one tree for each child, the tree of that child.
    pub proof fn lemma_trees_of(children: Seq<TreeNode<Data>>, n: nat)
        requires
            n <= children.len(),
        ensures
            Self::trees_of(children, n).len() == n,
            forall|i: int| 0 <= i < n ==> #[trigger] Self::trees_of(children, n)[i] == children[i]@,
        decreases n,
    {
        if n > 0 {
            Self::lemma_trees_of(children, (n - 1) as nat);
            assert(Self::trees_of(children, n) == Self::trees_of(children, (n - 1) as nat).push(
                children[n - 1]@,
            ));
        } else {
            assert(Self::trees_of(children, n) == Seq::<Tree<Data>>::empty());
        }
    }

    /// The tree of a branch has the trees of its children as its children.
    pub proof fn lemma_branch_view(self)
        requires
            self is Branch,
        ensures
            self@ is Branch,
            self@->Branch_0.len() == self->Branch_0@.len(),
            forall|i: int|
                0 <= i < self->Branch_0@.len() ==> #[trigger] self@->Branch_0[i]
                    == self->Branch_0@[i]@,
    {
        Self::lemma_trees_of(self->Branch_0@, self->Branch_0@.len());
    }

    /// Looks `key` up from this node: down through branches, by the low
    /// four bits of what is left of the key, until a leaf or nothing is met.
    pub fn get(&self, key: u128) -> (r: Option<&Data>)
        requires
            self@.well_formed(),
            octal(key as nat),
        ensures
            match r {
                Some(data) => self@.lookup(key as nat) == Some(*data),
                None => self@.lookup(key as nat) is None,
            },
    {
        let mut node: &TreeNode<Data> = self;
        let mut rest: u128 = key;
        loop
            invariant
                node@.well_formed(),
                octal(rest as nat),
                self@.lookup(key as nat) == node@.lookup(rest as nat),
            decreases node,
        {
            match node {
                TreeNode::Leaf(data) => {
                    return Some(data);
                },
                TreeNode::Branch(children) => {
                    proof {
                        assert(rest & 15 == rest % 16) by (bit_vector);
                        assert(rest >> 4 == rest / 16) by (bit_vector);
                        node.lemma_branch_view();
                    }
                    node = &children[(rest & 15) as usize];
                    rest = rest >> 4;
                },
                TreeNode::Empty => {
                    return None;
                },
            }
        }
    }

    /// Puts `data` in by `key`, from this node, which the walk has come to at
    /// `level` in a tree of `depth` levels. Empty places on the way become
    /// branches, the place at the lowest level becomes a leaf, and a leaf
    /// that is there already takes the new payload. The walk fails in a
    /// branch at or below the lowest level and at a leaf above it.
    #[verifier::loop_isolation(false)]
    pub fn insert(&mut self, key: u128, level: u32, depth: u32, data: Data) -> (r: OctreeResult<()>)
        requires
            old(self)@.well_formed(),
            octal(key as nat),
        ensures
            r == old(self)@.insert_outcome(key as nat, level as nat, depth as nat),
            final(self)@ == old(self)@.inserted(key as nat, level as nat, depth as nat, data),
            final(self)@.well_formed(),
            r is Err ==> final(self)@ == old(self)@,
    {
        let ghost start: Tree<Data> = self@;
        let ghost end: Tree<Data> = final(self)@;
        proof {
            start.lemma_inserted_well_formed(key as nat, level as nat, depth as nat, data);
            if start.insert_outcome(key as nat, level as nat, depth as nat) is Err {
                start.lemma_failed_insert(key as nat, level as nat, depth as nat, data);
            }
        }
        let mut node: &mut TreeNode<Data> = self;
        let mut rest: u128 = key;
        let mut current: u32 = level;
        loop
            invariant
                node@.well_formed(),
                octal(rest as nat),
                start.insert_outcome(key as nat, level as nat, depth as nat)
                    == node@.insert_outcome(rest as nat, current as nat, depth as nat),
                final(node)@ == node@.inserted(rest as nat, current as nat, depth as nat, data)
                    ==> end == start.inserted(key as nat, level as nat, depth as nat, data),
            decreases
                levels_left(current as nat, depth as nat),
                (if *node is Empty { 1nat } else { 0nat }),
        {
            let ghost whole: TreeNode<Data> = *node;
            let ghost whole_end: TreeNode<Data> = *final(node);
            match node {
                TreeNode::Branch(children) => {
                    proof {
                        whole.lemma_branch_view();
                    }
                    if current >= depth {
                        return Err(OctreeError::DepthExceeded);
                    }
                    proof {
                        assert(rest & 15 == rest % 16) by (bit_vector);
                        assert(rest >> 4 == rest / 16) by (bit_vector);
                    }
                    let octant: usize = (rest & 15) as usize;
                    node = &mut children[octant];
                    rest = rest >> 4;
                    current = current + 1;
                    proof {
                        assert(whole_end is Branch);
                        whole_end.lemma_branch_view();
                        assert(whole_end@->Branch_0 =~= whole@->Branch_0.update(
                            octant as int,
                            final(node)@,
                        ));
                    }
                },
                TreeNode::Leaf(slot) => {
                    if current < depth {
                        return Err(OctreeError::MalformedTree { level: current });
                    }
                    *slot = data;
                    return Ok(());
                },
                TreeNode::Empty => {
                    if current < depth {
                        *node = TreeNode::Branch(
                            vec![
                                TreeNode::Empty,
                                TreeNode::Empty,
                                TreeNode::Empty,
                                TreeNode::Empty,
                                TreeNode::Empty,
                                TreeNode::Empty,
                                TreeNode::Empty,
                                TreeNode::Empty,
                            ],
                        );
                        proof {
                            lemma_no_children::<Data>(rest as nat, current as nat, depth as nat);
                            node.lemma_branch_view();
                            assert(node@->Branch_0 =~= no_children::<Data>());
                        }
                    } else {
                        *node = TreeNode::Leaf(data);
                        return Ok(());
                    }
                },
            }
        }
    }
}

} // verus!
