//! The tree as a mathematical value, and what a lookup and an insertion mean
//! on it. A key is read from its low end, one digit in base 16 per level.

use vstd::prelude::*;
use crate::error::{OctreeError, OctreeResult};
use crate::morton::{octal, same_path};

verus! {

/// A tree: nothing, a payload, or an inner node with its children.
pub enum Tree<Data> {
    /// A payload.
    Leaf(Data),
    /// An inner node with its children, by octant.
    Branch(Seq<Tree<Data>>),
    /// Nothing.
    Empty,
}

/// The levels that lie between `level` and the leaves of a tree of `depth`
/// levels.
pub open spec fn levels_left(level: nat, depth: nat) -> nat {
    if level < depth {
        (depth - level) as nat
    } else {
        0
    }
}

/// Eight empty children.
pub open spec fn no_children<Data>() -> Seq<Tree<Data>> {
    Seq::new(8, |i: int| Tree::Empty)
}

/// An inner node with eight empty children holds nothing, counts as one node
/// and fits every height but 0, and an insertion that comes to it before
/// the lowest level goes well.
pub proof fn lemma_no_children<Data>(key: nat, level: nat, depth: nat)
    ensures
        no_children::<Data>().len() == 8,
        forall|i: int| 0 <= i < 8 ==> #[trigger] no_children::<Data>()[i] == Tree::<Data>::Empty,
        Tree::<Data>::Branch(no_children()).well_formed(),
        Tree::<Data>::Branch(no_children()).lookup(key) is None,
        Tree::<Data>::Branch(no_children()).node_count() == 1,
        level < depth ==> Tree::<Data>::Branch(no_children()).has_height(levels_left(level, depth)),
        level < depth ==> Tree::<Data>::Branch(no_children()).insert_outcome(key, level, depth)
            == Ok::<(), OctreeError>(()),
{
    let children: Seq<Tree<Data>> = no_children();
    let nothing: Tree<Data> = Tree::Empty;
    assert forall|i: int| 0 <= i < 8 implies #[trigger] children[i] == nothing by {}
    assert(nothing.well_formed());
    assert(nothing.lookup(key / 16) is None);
    assert(nothing.node_count() == 0);
    assert(nothing.has_height((levels_left(level, depth) - 1) as nat));
    assert(nothing.insert_outcome(key / 16, level + 1, depth) == Ok::<(), OctreeError>(()));
    assert(Tree::<Data>::count_in(children, 8) == 0) by {
        reveal_with_fuel(Tree::count_in, 9);
    }
}

impl<Data> Tree<Data> {
    /// Whether every inner node has eight children.
    pub open spec fn well_formed(self) -> bool
        decreases self,
    {
        match self {
            Tree::Branch(children) => {
                &&& children.len() == 8
                &&& forall|i: int| 0 <= i < 8 ==> (#[trigger] children[i]).well_formed()
            },
            _ => true,
        }
    }

    /// Whether the leaves all lie exactly `height` levels below the root, and
    /// every inner node above them has eight children.
    pub open spec fn has_height(self, height: nat) -> bool
        decreases self,
    {
        match self {
            Tree::Leaf(_) => height == 0,
            Tree::Branch(children) => {
                &&& height > 0
                &&& children.len() == 8
                &&& forall|i: int|
                    0 <= i < 8 ==> (#[trigger] children[i]).has_height((height - 1) as nat)
            },
            Tree::Empty => true,
        }
    }

    /// What the walk by `key` finds: it goes down through inner nodes, one
    /// digit of the key per level, until it meets a leaf or nothing.
    pub open spec fn lookup(self, key: nat) -> Option<Data>
        decreases self,
    {
        match self {
            Tree::Leaf(data) => Some(data),
            Tree::Branch(children) => if key % 16 < children.len() {
                children[(key % 16) as int].lookup(key / 16)
            } else {
                None
            },
            Tree::Empty => None,
        }
    }

    /// How many nodes, inner nodes and leaves together, the tree has.
    pub open spec fn node_count(self) -> nat
        decreases self, 0nat,
    {
        match self {
            Tree::Leaf(_) => 1,
            Tree::Branch(children) => 1 + Self::count_in(children, children.len()),
            Tree::Empty => 0,
        }
    }

    /// The nodes of the first `n` of `children`.
    pub open spec fn count_in(children: Seq<Tree<Data>>, n: nat) -> nat
        decreases children, n,
    {
        if n == 0 || n > children.len() {
            0
        } else {
            Self::count_in(children, (n - 1) as nat) + children[n - 1].node_count()
        }
    }

    /// How an insertion by `key` ends that comes to this tree at `level` of a
    /// tree of `depth` levels.
    pub open spec fn insert_outcome(self, key: nat, level: nat, depth: nat) -> OctreeResult<()>
        decreases self,
    {
        match self {
            Tree::Leaf(_) => if level < depth {
                Err(OctreeError::MalformedTree { level: level as u32 })
            } else {
                Ok(())
            },
            Tree::Branch(children) => if level >= depth {
                Err(OctreeError::DepthExceeded)
            } else if key % 16 < children.len() {
                children[(key % 16) as int].insert_outcome(key / 16, level + 1, depth)
            } else {
                Ok(())
            },
            Tree::Empty => Ok(()),
        }
    }

    /// The tree after an insertion of `data` by `key` that comes to this tree
    /// at `level` of a tree of `depth` levels. An empty place above the
    /// lowest level becomes an inner node, one at the lowest level a leaf,
    /// and a leaf there takes the new payload. A failed insertion leaves the
    /// tree as it is.
    pub open spec fn inserted(self, key: nat, level: nat, depth: nat, data: Data) -> Tree<Data>
        decreases levels_left(level, depth), (if self is Empty { 1nat } else { 0nat }),
    {
        match self {
            Tree::Leaf(_) => if level < depth {
                self
            } else {
                Tree::Leaf(data)
            },
            Tree::Branch(children) => if level < depth && key % 16 < children.len() {
                let octant: int = (key % 16) as int;
                Tree::Branch(
                    children.update(
                        octant,
                        children[octant].inserted(key / 16, level + 1, depth, data),
                    ),
                )
            } else {
                self
            },
            Tree::Empty => if level < depth {
                Tree::Branch(no_children()).inserted(key, level, depth, data)
            } else {
                Tree::Leaf(data)
            },
        }
    }
    /// How many nodes an insertion by `key` adds that comes to this tree at
    /// `level` of a tree of `depth` levels: none where the walk ends in a
    /// leaf, else one for the empty place that it meets and one for each
    /// level below that place.
    pub open spec fn fresh_nodes(self, key: nat, level: nat, depth: nat) -> nat
        decreases self,
    {
        match self {
            Tree::Leaf(_) => 0,
            Tree::Branch(children) => if level < depth && key % 16 < children.len() {
                children[(key % 16) as int].fresh_nodes(key / 16, level + 1, depth)
            } else {
                0
            },
            Tree::Empty => levels_left(level, depth) + 1,
        }
    }

    /// A failed insertion leaves the tree as it is.
    pub proof fn lemma_failed_insert(self, key: nat, level: nat, depth: nat, data: Data)
        requires
            self.insert_outcome(key, level, depth) is Err,
        ensures
            self.inserted(key, level, depth, data) == self,
        decreases self,
    {
        match self {
            Tree::Branch(children) => {
                if level < depth && key % 16 < children.len() {
                    let octant: int = (key % 16) as int;
                    children[octant].lemma_failed_insert(key / 16, level + 1, depth, data);
                    assert(children.update(octant, children[octant]) =~= children);
                }
            },
            _ => {},
        }
    }

    /// An insertion keeps eight children at every inner node.
    pub proof fn lemma_inserted_well_formed(self, key: nat, level: nat, depth: nat, data: Data)
        requires
            self.well_formed(),
        ensures
            self.inserted(key, level, depth, data).well_formed(),
        decreases levels_left(level, depth), (if self is Empty { 1nat } else { 0nat }),
    {
        match self {
            Tree::Leaf(_) => {},
            Tree::Branch(children) => {
                if level < depth && key % 16 < children.len() {
                    let octant: int = (key % 16) as int;
                    children[octant].lemma_inserted_well_formed(key / 16, level + 1, depth, data);
                }
            },
            Tree::Empty => {
                if level < depth {
                    lemma_no_children::<Data>(key, level, depth);
                    Tree::<Data>::Branch(no_children()).lemma_inserted_well_formed(
                        key,
                        level,
                        depth,
                        data,
                    );
                }
            },
        }
    }

    /// After an insertion that went well, the keys that share the path of
    /// the inserted key find the new payload, and every other key finds what
    /// it found before.
    pub proof fn lemma_inserted_lookup(
        self,
        key: nat,
        level: nat,
        depth: nat,
        data: Data,
        other: nat,
    )
        requires
            self.well_formed(),
            octal(key),
            self.insert_outcome(key, level, depth) is Ok,
        ensures
            self.inserted(key, level, depth, data).lookup(other) == if same_path(
                other,
                key,
                levels_left(level, depth),
            ) {
                Some(data)
            } else {
                self.lookup(other)
            },
        decreases levels_left(level, depth), (if self is Empty { 1nat } else { 0nat }),
    {
        match self {
            Tree::Leaf(_) => {},
            Tree::Branch(children) => {
                if key % 16 < children.len() {
                    let octant: int = (key % 16) as int;
                    children[octant].lemma_inserted_lookup(
                        key / 16,
                        level + 1,
                        depth,
                        data,
                        other / 16,
                    );
                }
            },
            Tree::Empty => {
                if level < depth {
                    lemma_no_children::<Data>(other, level, depth);
                    lemma_no_children::<Data>(key, level, depth);
                    Tree::<Data>::Branch(no_children()).lemma_inserted_lookup(
                        key,
                        level,
                        depth,
                        data,
                        other,
                    );
                }
            },
        }
    }

    /// In a tree whose leaves lie at the lowest level an insertion goes
    /// well and keeps them there.
    pub proof fn lemma_inserted_height(self, key: nat, level: nat, depth: nat, data: Data)
        requires
            self.has_height(levels_left(level, depth)),
        ensures
            self.insert_outcome(key, level, depth) == Ok::<(), OctreeError>(()),
            self.inserted(key, level, depth, data).has_height(levels_left(level, depth)),
        decreases levels_left(level, depth), (if self is Empty { 1nat } else { 0nat }),
    {
        match self {
            Tree::Leaf(_) => {},
            Tree::Branch(children) => {
                if key % 16 < children.len() {
                    let octant: int = (key % 16) as int;
                    children[octant].lemma_inserted_height(key / 16, level + 1, depth, data);
                }
            },
            Tree::Empty => {
                if level < depth {
                    lemma_no_children::<Data>(key, level, depth);
                    Tree::<Data>::Branch(no_children()).lemma_inserted_height(
                        key,
                        level,
                        depth,
                        data,
                    );
                }
            },
        }
    }

    /// A tree whose leaves lie at one level has eight children at every inner
    /// node.
    pub proof fn lemma_height_well_formed(self, height: nat)
        requires
            self.has_height(height),
        ensures
            self.well_formed(),
        decreases self,
    {
        match self {
            Tree::Branch(children) => {
                assert forall|i: int| 0 <= i < 8 implies (#[trigger] children[i]).well_formed() by {
                    children[i].lemma_height_well_formed((height - 1) as nat);
                }
            },
            _ => {},
        }
    }
    /// The count over the first `n` children after one of them was replaced.
    pub proof fn lemma_count_update(
        children: Seq<Tree<Data>>,
        n: nat,
        octant: int,
        child: Tree<Data>,
    )
        requires
            0 <= octant < children.len(),
            n <= children.len(),
        ensures
            Self::count_in(children.update(octant, child), n) == if octant < n {
                Self::count_in(children, n) - children[octant].node_count() + child.node_count()
            } else {
                Self::count_in(children, n) as int
            },
        decreases n,
    {
        if n > 0 {
            Self::lemma_count_update(children, (n - 1) as nat, octant, child);
        }
    }

    /// An insertion that went well adds exactly the nodes that were missing
    /// on the path of the key.
    pub proof fn lemma_inserted_count(self, key: nat, level: nat, depth: nat, data: Data)
        requires
            self.well_formed(),
            octal(key),
            self.insert_outcome(key, level, depth) is Ok,
        ensures
            self.inserted(key, level, depth, data).node_count() == self.node_count()
                + self.fresh_nodes(key, level, depth),
        decreases levels_left(level, depth), (if self is Empty { 1nat } else { 0nat }),
    {
        match self {
            Tree::Leaf(_) => {},
            Tree::Branch(children) => {
                let octant: int = (key % 16) as int;
                let child: Tree<Data> = children[octant].inserted(key / 16, level + 1, depth, data);
                children[octant].lemma_inserted_count(key / 16, level + 1, depth, data);
                Self::lemma_count_update(children, 8, octant, child);
            },
            Tree::Empty => {
                if level < depth {
                    let fresh: Tree<Data> = Tree::Branch(no_children());
                    lemma_no_children::<Data>(key, level, depth);
                    fresh.lemma_inserted_count(key, level, depth, data);
                    assert(fresh.fresh_nodes(key, level, depth) == levels_left(level + 1, depth)
                        + 1) by {
                        let nothing: Tree<Data> = Tree::Empty;
                        assert(no_children::<Data>()[(key % 16) as int] == nothing);
                        assert(nothing.fresh_nodes(key / 16, level + 1, depth) == levels_left(
                            level + 1,
                            depth,
                        ) + 1);
                    }
                }
            },
        }
    }

    /// Where the key is found already, in a tree whose leaves lie at the
    /// lowest level, an insertion by it adds no node.
    pub proof fn lemma_found_adds_none(self, key: nat, level: nat, depth: nat)
        requires
            self.has_height(levels_left(level, depth)),
            octal(key),
            self.lookup(key) is Some,
        ensures
            self.fresh_nodes(key, level, depth) == 0,
        decreases self,
    {
        match self {
            Tree::Branch(children) => {
                children[(key % 16) as int].lemma_found_adds_none(key / 16, level + 1, depth);
            },
            _ => {},
        }
    }
    /// An insertion adds at most one node for each level and one for the
    /// leaf.
    pub proof fn lemma_fresh_nodes_bound(self, key: nat, level: nat, depth: nat)
        ensures
            self.fresh_nodes(key, level, depth) <= levels_left(level, depth) + 1,
        decreases self,
    {
        match self {
            Tree::Branch(children) => {
                if level < depth && key % 16 < children.len() {
                    children[(key % 16) as int].lemma_fresh_nodes_bound(key / 16, level + 1, depth);
                }
            },
            _ => {},
        }
    }
}

} // verus!
