//! A tree of pairwise sums over a list of leaves, with paths from a leaf to
//! the root.
//!
//! Two nodes are combined by adding them and reducing the sum by a fixed
//! prime. This stands in for a hash and has none of its strength; the shape
//! of the tree and of its paths is what the module is about.

use crate::error::ZkError;
use crate::field::{field_add, FieldElement};
use crate::integer::{numbers, Integer};
use crate::proofs::combine;
use vstd::prelude::*;

verus! {

/// The level above `nodes`: neighbours are combined two by two, and a node
/// left over at the end moves up as it is.
pub open spec fn next_level(nodes: Seq<int>) -> Seq<int> {
    Seq::new(
        ((nodes.len() + 1) / 2) as nat,
        |i: int|
            if 2 * i + 1 < nodes.len() {
                combine(nodes[2 * i], nodes[2 * i + 1])
            } else {
                nodes[2 * i]
            },
    )
}

/// The root over `nodes`: the one node that is left when level after level
/// was reduced.
pub open spec fn merkle_root(nodes: Seq<int>) -> int
    recommends
        nodes.len() > 0,
    decreases nodes.len(),
{
    if nodes.len() <= 1 {
        nodes[0]
    } else {
        merkle_root(next_level(nodes))
    }
}

/// The path from the node of index `index` to the root: level by level, the
/// neighbour that the node is combined with, where it has one, and whether
/// the node stands to the left of it.
pub open spec fn path_of(nodes: Seq<int>, index: int) -> Seq<(int, bool)>
    decreases nodes.len(),
{
    if nodes.len() <= 1 {
        Seq::empty()
    } else {
        let sibling = if index % 2 == 0 {
            index + 1
        } else {
            index - 1
        };
        let step = if sibling < nodes.len() {
            seq![(nodes[sibling], index % 2 == 0)]
        } else {
            Seq::empty()
        };
        step + path_of(next_level(nodes), index / 2)
    }
}

/// One step up a path: the node combined with its neighbour, each on its
/// side.
pub open spec fn climb(node: int, step: (int, bool)) -> int {
    if step.1 {
        combine(node, step.0)
    } else {
        combine(step.0, node)
    }
}

/// What a leaf comes to when `path` is followed from it.
pub open spec fn replay(leaf: int, path: Seq<(int, bool)>) -> int
    decreases path.len(),
{
    if path.len() == 0 {
        leaf
    } else {
        replay(climb(leaf, path[0]), path.drop_first())
    }
}

/// What a path holds: each neighbour as a number, with its side.
pub open spec fn steps(path: Seq<(Integer, bool)>) -> Seq<(int, bool)> {
    path.map_values(|s: (Integer, bool)| (s.0@, s.1))
}

/// Following the path of a leaf from that leaf leads to the root.
pub proof fn lemma_path_leads_to_root(nodes: Seq<int>, index: int)
    requires
        0 <= index < nodes.len(),
    ensures
        replay(nodes[index], path_of(nodes, index)) == merkle_root(nodes),
    decreases nodes.len(),
{
    if nodes.len() > 1 {
        let above = next_level(nodes);
        let rest = path_of(above, index / 2);
        let sibling = if index % 2 == 0 {
            index + 1
        } else {
            index - 1
        };
        lemma_path_leads_to_root(above, index / 2);
        if sibling < nodes.len() {
            let step = seq![(nodes[sibling], index % 2 == 0)];
            assert((step + rest)[0] == step[0]);
            assert((step + rest).drop_first() =~= rest);
            assert(climb(nodes[index], step[0]) == above[index / 2]);
        } else {
            assert(Seq::<(int, bool)>::empty() + rest =~= rest);
            assert(nodes[index] == above[index / 2]);
        }
    }
}

/// Following a path that was extended by one step is following the path and
/// then taking the step.
pub proof fn lemma_replay_push(leaf: int, path: Seq<(int, bool)>, step: (int, bool))
    ensures
        replay(leaf, path.push(step)) == climb(replay(leaf, path), step),
    decreases path.len(),
{
    let longer = path.push(step);
    if path.len() == 0 {
        assert(longer[0] == step);
        assert(longer.drop_first() =~= path);
        assert(replay(climb(leaf, step), path) == climb(leaf, step));
    } else {
        assert(longer[0] == path[0]);
        assert(longer.drop_first() =~= path.drop_first().push(step));
        lemma_replay_push(climb(leaf, path[0]), path.drop_first(), step);
    }
}

/// A list of leaves with the root of the tree over them.
#[derive(Debug)]
pub struct MerkleTree {
    /// The root of the tree.
    pub root: Integer,
    /// The leaves, in order.
    pub leaves: Vec<Integer>,
}

/// A copy of `nodes`.
fn copy_nodes(nodes: &Vec<Integer>) -> (r: Vec<Integer>)
    ensures
        r@.len() == nodes@.len(),
        numbers(r@) == numbers(nodes@),
{
    let mut copy: Vec<Integer> = Vec::new();
    let n = nodes.len();
    let mut i: usize = 0;
    while i < n
        invariant
            n == nodes@.len(),
            i <= n,
            copy@.len() == i,
            forall|k: int| 0 <= k < i ==> (#[trigger] copy@[k])@ == nodes@[k]@,
        decreases n - i,
    {
        copy.push(nodes[i].clone());
        i = i + 1;
    }
    assert(numbers(copy@) =~= numbers(nodes@));
    copy
}

/// The level above `nodes`.
fn reduce_level(nodes: &Vec<Integer>) -> (r: Vec<Integer>)
    ensures
        r@.len() == (nodes@.len() + 1) / 2,
        numbers(r@) == next_level(numbers(nodes@)),
{
    let n = nodes.len();
    let half = n / 2 + n % 2;
    let mut above: Vec<Integer> = Vec::new();
    let mut i: usize = 0;
    while i < half
        invariant
            n == nodes@.len(),
            half == (n + 1) / 2,
            i <= half,
            above@.len() == i,
            forall|k: int|
                0 <= k < i ==> (#[trigger] above@[k])@ == next_level(numbers(nodes@))[k],
        decreases half - i,
    {
        let node = if 2 * i + 1 < n {
            MerkleTree::hash(&nodes[2 * i], &nodes[2 * i + 1])
        } else {
            nodes[2 * i].clone()
        };
        above.push(node);
        i = i + 1;
    }
    assert(numbers(above@) =~= next_level(numbers(nodes@)));
    above
}

impl MerkleTree {
    /// The tree over `leaves`, of which there must be one at least.
    pub fn new(leaves: Vec<Integer>) -> (r: MerkleTree)
        requires
            leaves@.len() > 0,
        ensures
            r.leaves == leaves,
            r.root@ == merkle_root(numbers(leaves@)),
    {
        let root = MerkleTree::compute_root(&leaves);
        MerkleTree { root, leaves }
    }

    /// The root over `leaves`, of which there must be one at least: the
    /// levels are reduced until one node is left.
    pub fn compute_root(leaves: &Vec<Integer>) -> (r: Integer)
        requires
            leaves@.len() > 0,
        ensures
            r@ == merkle_root(numbers(leaves@)),
    {
        let mut nodes = copy_nodes(leaves);
        while nodes.len() > 1
            invariant
                nodes@.len() > 0,
                merkle_root(numbers(nodes@)) == merkle_root(numbers(leaves@)),
            decreases nodes@.len(),
        {
            nodes = reduce_level(&nodes);
        }
        nodes[0].clone()
    }

    /// The path from the leaf of index `index` to the root.
    pub fn merkle_path(&self, index: usize) -> (r: Vec<(Integer, bool)>)
        ensures
            steps(r@) == path_of(numbers(self.leaves@), index as int),
    {
        let mut path: Vec<(Integer, bool)> = Vec::new();
        let mut current_index = index;
        let mut nodes = copy_nodes(&self.leaves);
        assert(steps(path@) + path_of(numbers(nodes@), current_index as int) =~= path_of(
            numbers(self.leaves@),
            index as int,
        ));
        while nodes.len() > 1
            invariant
                steps(path@) + path_of(numbers(nodes@), current_index as int) == path_of(
                    numbers(self.leaves@),
                    index as int,
                ),
            decreases nodes@.len(),
        {
            let next_level = reduce_level(&nodes);
            let is_left = current_index % 2 == 0;
            let sibling_index = if is_left {
                current_index + 1
            } else {
                current_index - 1
            };
            let ghost before = steps(path@);
            let ghost rest = path_of(numbers(next_level@), (current_index / 2) as int);
            if sibling_index < nodes.len() {
                path.push((nodes[sibling_index].clone(), is_left));
                proof {
                    let step = seq![(numbers(nodes@)[sibling_index as int], is_left)];
                    assert(steps(path@) =~= before + step);
                    assert(steps(path@) + rest =~= before + (step + rest));
                }
            } else {
                assert(before + rest =~= before + (Seq::<(int, bool)>::empty() + rest));
            }
            current_index = current_index / 2;
            nodes = next_level;
        }
        assert(steps(path@) + Seq::<(int, bool)>::empty() =~= steps(path@));
        path
    }

    /// What `leaf` comes to when `path` is followed from it. For the path of
    /// a leaf of a tree, followed from that leaf, this is the root.
    pub fn replay_path(leaf: &Integer, path: &Vec<(Integer, bool)>) -> (r: Integer)
        ensures
            r@ == replay(leaf@, steps(path@)),
    {
        let mut node = leaf.clone();
        let n = path.len();
        let mut i: usize = 0;
        assert(steps(path@).take(0) =~= Seq::<(int, bool)>::empty());
        while i < n
            invariant
                n == path@.len(),
                i <= n,
                node@ == replay(leaf@, steps(path@).take(i as int)),
            decreases n - i,
        {
            let step = &path[i];
            proof {
                let shorter = steps(path@).take(i as int);
                assert(steps(path@).take(i + 1) =~= shorter.push((step.0@, step.1)));
                lemma_replay_push(leaf@, shorter, (step.0@, step.1));
            }
            node = if step.1 {
                MerkleTree::hash(&node, &step.0)
            } else {
                MerkleTree::hash(&step.0, &node)
            };
            i = i + 1;
        }
        assert(steps(path@).take(n as int) =~= steps(path@));
        node
    }

    /// Combines two nodes: their sum, reduced by the default modulus.
    pub fn hash(left: &Integer, right: &Integer) -> (r: Integer)
        ensures
            r@ == combine(left@, right@),
    {
        let combined = left.plus(right);
        combined.remainder(&Integer::default_modulus())
    }

    /// Combines two elements of one field: their sum in that field.
    pub fn apply_hash(&self, a: &FieldElement, b: &FieldElement) -> (r: Result<
        FieldElement,
        ZkError,
    >)
        ensures
            match r {
                Ok(e) => a@.modulus == b@.modulus && e@ == field_add(a@, b@),
                Err(e) => a@.modulus != b@.modulus && e == ZkError::ModulusMismatch,
            },
    {
        a.add(b)
    }
}

} // verus!
