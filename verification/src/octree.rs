//! The octree: a root node and the number of levels between it and the
//! leaves. A coordinate is looked up and put in by its Morton key.

use vstd::prelude::*;
use crate::error::{OctreeError, OctreeResult};
use crate::morton::{
    cell_of, encode_position, is_cell, lemma_key_from_bound, lemma_key_from_wrap,
    lemma_key_injective, lemma_key_octal, lemma_same_path_equal, lemma_same_path_self,
    lemma_wrap, morton_key, same_path,
};
use crate::node::TreeNode;
use crate::tree::Tree;

verus! {

/// The key of a cell in a tree of `depth` levels, as the walks read it.
pub open spec fn key_of(cell: (int, int, int), depth: nat) -> nat {
    morton_key(cell.0, cell.1, cell.2, depth) as nat
}

/// What a tree of `depth` levels holds, by cell.
pub open spec fn cells<Data>(tree: Tree<Data>, depth: nat) -> Map<(int, int, int), Data> {
    Map::new(
        |cell: (int, int, int)| is_cell(cell, depth) && tree.lookup(key_of(cell, depth)) is Some,
        |cell: (int, int, int)| tree.lookup(key_of(cell, depth))->Some_0,
    )
}

/// A coordinate is found where the cell that it falls on is found.
pub proof fn lemma_cells_get<Data>(tree: Tree<Data>, depth: nat, x: int, y: int, z: int)
    ensures
        cells(tree, depth).get(cell_of(x, y, z, depth)) == tree.lookup(
            morton_key(x, y, z, depth) as nat,
        ),
{
    lemma_wrap(x, depth);
    lemma_wrap(y, depth);
    lemma_wrap(z, depth);
    lemma_key_from_wrap(x, y, z, depth, 0);
}

/// An insertion at a coordinate puts the payload in the cell that the
/// coordinate falls on and leaves every other cell as it was.
pub proof fn lemma_cells_inserted<Data>(
    tree: Tree<Data>,
    depth: nat,
    x: int,
    y: int,
    z: int,
    data: Data,
)
    requires
        tree.has_height(depth),
    ensures
        cells(tree.inserted(morton_key(x, y, z, depth) as nat, 0, depth, data), depth) == cells(
            tree,
            depth,
        ).insert(cell_of(x, y, z, depth), data),
{
    let key: nat = morton_key(x, y, z, depth) as nat;
    let target: (int, int, int) = cell_of(x, y, z, depth);
    let after: Tree<Data> = tree.inserted(key, 0, depth, data);
    lemma_wrap(x, depth);
    lemma_wrap(y, depth);
    lemma_wrap(z, depth);
    lemma_key_from_wrap(x, y, z, depth, 0);
    lemma_key_octal(x, y, z, depth, 0);
    lemma_key_from_bound(x, y, z, depth, 0);
    tree.lemma_height_well_formed(depth);
    tree.lemma_inserted_height(key, 0, depth, data);
    let now: Map<(int, int, int), Data> = cells(after, depth);
    let wanted: Map<(int, int, int), Data> = cells(tree, depth).insert(target, data);
    assert forall|cell: (int, int, int)|
        #![trigger now.dom().contains(cell)]
        #![trigger wanted.dom().contains(cell)]
        now.dom().contains(cell) == wanted.dom().contains(cell) && (now.dom().contains(cell)
            ==> now[cell] == wanted[cell]) by {
        if is_cell(cell, depth) {
            tree.lemma_inserted_lookup(key, 0, depth, data, key_of(cell, depth));
            lemma_key_from_bound(cell.0, cell.1, cell.2, depth, 0);
            if same_path(key_of(cell, depth), key, depth) {
                lemma_same_path_equal(key_of(cell, depth), key, depth);
                lemma_key_injective(cell, target, depth);
            }
            if cell == target {
                lemma_same_path_self(key, depth);
            }
        }
    }
    assert(now.dom() =~= wanted.dom());
    assert(now =~= wanted);
}

/// A sparse octree of a fixed number of levels that maps cells to payloads.
pub struct Octree<Data> {
    root_node: TreeNode<Data>,
    depth: u32,
}

impl<Data> View for Octree<Data> {
    type V = Map<(int, int, int), Data>;

    /// The payloads that the tree holds, by cell.
    open spec fn view(&self) -> Map<(int, int, int), Data> {
        cells(self.tree(), self.depth())
    }
}

impl<Data> Octree<Data> {
    /// The number of levels between the root and the leaves.
    pub closed spec fn depth(&self) -> nat {
        self.depth as nat
    }

    /// The nodes of the tree, as a mathematical value.
    pub closed spec fn tree(&self) -> Tree<Data> {
        self.root_node@
    }

    /// Whether the tree has at most 32 levels, which is what a key can tell
    /// apart, and all its leaves lie at the lowest of them.
    pub open spec fn wf(&self) -> bool {
        &&& self.depth() <= 32
        &&& self.tree().has_height(self.depth())
    }

    /// What is found at the coordinate `(x, y, z)`.
    pub open spec fn found(&self, x: int, y: int, z: int) -> Option<Data> {
        self@.get(cell_of(x, y, z, self.depth()))
    }

    /// How many nodes, branches and leaves together, the tree has.
    pub open spec fn node_count(&self) -> nat {
        self.tree().node_count()
    }

    /// Whether this tree is `before` after an insertion of `data` at the
    /// coordinate `(x, y, z)`.
    pub open spec fn results_from(&self, before: Self, x: int, y: int, z: int, data: Data) -> bool {
        &&& self.depth() == before.depth()
        &&& self.tree() == before.tree().inserted(
            morton_key(x, y, z, before.depth()) as nat,
            0,
            before.depth(),
            data,
        )
    }

    /// An empty tree of `depth` levels. Each axis then ranges from
    /// `-2^(depth - 1)` up to and without `2^(depth - 1)`; a tree of no
    /// levels is one cell. A key has 32 digits, one for each level, so
    /// `depth` is at most 32.
    pub fn new(depth: u32) -> (r: Self)
        requires
            depth <= 32,
        ensures
            r.wf(),
            r.depth() == depth,
            r@ == Map::<(int, int, int), Data>::empty(),
            r.node_count() == 0,
    {
        let r = Self { root_node: TreeNode::Empty, depth };
        proof {
            assert(r@ =~= Map::<(int, int, int), Data>::empty());
        }
        r
    }

    /// The payload at the coordinate `(x, y, z)`, if there is one. A
    /// coordinate out of range stands for the cell that it falls on.
    pub fn get(&self, x: i32, y: i32, z: i32) -> (r: Option<&Data>)
        requires
            self.wf(),
        ensures
            match r {
                Some(data) => self.found(x as int, y as int, z as int) == Some(*data),
                None => self.found(x as int, y as int, z as int) is None,
            },
    {
        let key: u128 = Self::encode_position(x, y, z, self.depth);
        proof {
            lemma_key_octal(x as int, y as int, z as int, self.depth(), 0);
            self.tree().lemma_height_well_formed(self.depth());
            lemma_cells_get(self.tree(), self.depth(), x as int, y as int, z as int);
        }
        self.root_node.get(key)
    }

    /// Puts `data` at the coordinate `(x, y, z)`, in place of what was
    /// there. A coordinate out of range stands for the cell that it falls
    /// on.
    pub fn insert(&mut self, x: i32, y: i32, z: i32, data: Data) -> (r: OctreeResult<()>)
        requires
            old(self).wf(),
        ensures
            r == Ok::<(), OctreeError>(()),
            final(self).wf(),
            final(self).results_from(*old(self), x as int, y as int, z as int, data),
            final(self)@ == old(self)@.insert(
                cell_of(x as int, y as int, z as int, old(self).depth()),
                data,
            ),
            old(self).found(x as int, y as int, z as int) is Some ==> final(self).node_count()
                == old(self).node_count(),
            old(self).node_count() <= final(self).node_count() <= old(self).node_count()
                + old(self).depth() + 1,
    {
        let key: u128 = Self::encode_position(x, y, z, self.depth);
        proof {
            let depth: nat = self.depth();
            let tree: Tree<Data> = self.tree();
            lemma_key_octal(x as int, y as int, z as int, depth, 0);
            tree.lemma_height_well_formed(depth);
            tree.lemma_inserted_height(key as nat, 0, depth, data);
            tree.lemma_inserted_count(key as nat, 0, depth, data);
            tree.lemma_fresh_nodes_bound(key as nat, 0, depth);
            lemma_cells_inserted(tree, depth, x as int, y as int, z as int, data);
            lemma_cells_get(tree, depth, x as int, y as int, z as int);
            if tree.lookup(key as nat) is Some {
                tree.lemma_found_adds_none(key as nat, 0, depth);
            }
        }
        self.root_node.insert(key, 0, self.depth, data)
    }

    /// The key of the coordinate `(x, y, z)` in a tree of `depth` levels.
    pub fn encode_position(x: i32, y: i32, z: i32, depth: u32) -> (key: u128)
        requires
            depth <= 32,
        ensures
            key == morton_key(x as int, y as int, z as int, depth as nat),
    {
        encode_position(x, y, z, depth)
    }
    /// What was put in at a coordinate is found there afterwards.
    pub proof fn lemma_round_trip(before: Self, after: Self, x: int, y: int, z: int, data: Data)
        requires
            before.wf(),
            after.results_from(before, x, y, z, data),
        ensures
            after.wf(),
            after.found(x, y, z) == Some(data),
    {
        let depth: nat = before.depth();
        let key: nat = morton_key(x, y, z, depth) as nat;
        before.tree().lemma_inserted_height(key, 0, depth, data);
        lemma_cells_inserted(before.tree(), depth, x, y, z, data);
    }

    /// An insertion at one coordinate changes nothing at a coordinate that
    /// falls on another cell.
    pub proof fn lemma_other_cells_unchanged(
        before: Self,
        after: Self,
        at: (int, int, int),
        other: (int, int, int),
        data: Data,
    )
        requires
            before.wf(),
            after.results_from(before, at.0, at.1, at.2, data),
            cell_of(at.0, at.1, at.2, before.depth()) != cell_of(
                other.0,
                other.1,
                other.2,
                before.depth(),
            ),
        ensures
            after.found(other.0, other.1, other.2) == before.found(other.0, other.1, other.2),
    {
        lemma_cells_inserted(before.tree(), before.depth(), at.0, at.1, at.2, data);
    }

    /// Of two different coordinates in range, an insertion at one changes
    /// nothing at the other.
    pub proof fn lemma_no_aliasing(
        before: Self,
        after: Self,
        at: (int, int, int),
        other: (int, int, int),
        data: Data,
    )
        requires
            before.wf(),
            is_cell(at, before.depth()),
            is_cell(other, before.depth()),
            at != other,
            after.results_from(before, at.0, at.1, at.2, data),
        ensures
            after.found(other.0, other.1, other.2) == before.found(other.0, other.1, other.2),
    {
        let depth: nat = before.depth();
        lemma_wrap(at.0, depth);
        lemma_wrap(at.1, depth);
        lemma_wrap(at.2, depth);
        lemma_wrap(other.0, depth);
        lemma_wrap(other.1, depth);
        lemma_wrap(other.2, depth);
        Self::lemma_other_cells_unchanged(before, after, at, other, data);
    }

    /// After two insertions at one coordinate the second payload is found
    /// there, every other cell is as it was before the first, and the second
    /// insertion has added no node.
    pub proof fn lemma_overwrite(
        before: Self,
        between: Self,
        after: Self,
        x: int,
        y: int,
        z: int,
        first: Data,
        second: Data,
    )
        requires
            before.wf(),
            between.results_from(before, x, y, z, first),
            after.results_from(between, x, y, z, second),
        ensures
            after.found(x, y, z) == Some(second),
            after@ == before@.insert(cell_of(x, y, z, before.depth()), second),
            after.node_count() == between.node_count(),
    {
        let depth: nat = before.depth();
        let key: nat = morton_key(x, y, z, depth) as nat;
        let target: (int, int, int) = cell_of(x, y, z, depth);
        Self::lemma_round_trip(before, between, x, y, z, first);
        Self::lemma_round_trip(between, after, x, y, z, second);
        lemma_cells_inserted(before.tree(), depth, x, y, z, first);
        lemma_cells_inserted(between.tree(), depth, x, y, z, second);
        assert(before@.insert(target, first).insert(target, second) =~= before@.insert(
            target,
            second,
        ));
        lemma_key_octal(x, y, z, depth, 0);
        lemma_cells_get(between.tree(), depth, x, y, z);
        between.tree().lemma_height_well_formed(depth);
        between.tree().lemma_inserted_height(key, 0, depth, second);
        between.tree().lemma_inserted_count(key, 0, depth, second);
        between.tree().lemma_found_adds_none(key, 0, depth);
    }

    /// In a tree that holds nothing, nothing is found at any coordinate.
    pub proof fn lemma_empty_finds_nothing(tree: Self, x: int, y: int, z: int)
        requires
            tree@ == Map::<(int, int, int), Data>::empty(),
        ensures
            tree.found(x, y, z) is None,
    {
    }

    /// Where nothing is found at a coordinate, nothing is found there after
    /// an insertion at a coordinate that falls on another cell.
    pub proof fn lemma_absent_stays_absent(
        before: Self,
        after: Self,
        at: (int, int, int),
        other: (int, int, int),
        data: Data,
    )
        requires
            before.wf(),
            after.results_from(before, at.0, at.1, at.2, data),
            cell_of(at.0, at.1, at.2, before.depth()) != cell_of(
                other.0,
                other.1,
                other.2,
                before.depth(),
            ),
            before.found(other.0, other.1, other.2) is None,
        ensures
            after.found(other.0, other.1, other.2) is None,
    {
        Self::lemma_other_cells_unchanged(before, after, at, other, data);
    }
}

} // verus!
