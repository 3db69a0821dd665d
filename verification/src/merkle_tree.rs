use crate::error::MerkleError;
use crate::hasher::Hasher;
use crate::layers::{
    auth_path, half_up, layer, layer_width, lemma_auth_path_len, lemma_height_below_size,
    lemma_layer_len, lemma_proof_reaches_root, lemma_single_root, merkle_root, proof_steps,
    proven_leaf, right_child, split_point, tree_height,
};
use crate::merkle_proof::{
    fold_steps, steps_view, MerkleProof, ProofDirection, ProofStep, StepModel,
};
use crate::text::{hex_encode, hex_string};
use vstd::prelude::*;
use vstd::string::{StringExecFns, StringSliceAdditionalSpecFns};

verus! {

/// A tree of digests as mathematics.
pub enum TreeModel {
    Leaf { hash: Seq<u8> },
    Internal { hash: Seq<u8>, left: Box<TreeModel>, right: Box<TreeModel> },
}

impl TreeModel {
    /// The digest at the top of the tree.
    pub open spec fn digest(self) -> Seq<u8> {
        match self {
            TreeModel::Leaf { hash } => hash,
            TreeModel::Internal { hash, .. } => hash,
        }
    }
}

/// The tree below node `k` of `level` in the tree over `leaves`: a leaf at
/// level 0, else a node over its two children one level down.
pub open spec fn subtree<H: Hasher>(h: &H, leaves: Seq<Seq<u8>>, level: nat, k: int) -> TreeModel
    decreases level,
{
    if level == 0 {
        TreeModel::Leaf { hash: leaves[k] }
    } else {
        let below = (level - 1) as nat;
        TreeModel::Internal {
            hash: layer(h, leaves, level)[k],
            left: Box::new(subtree(h, leaves, below, 2 * k)),
            right: Box::new(subtree(h, leaves, below, right_child(k, layer_width(leaves.len(), below)))),
        }
    }
}

/// The digest at the top of a subtree is the digest that the level holds at
/// that position.
pub proof fn lemma_subtree_digest<H: Hasher>(h: &H, leaves: Seq<Seq<u8>>, level: nat, k: int)
    ensures
        subtree(h, leaves, level, k).digest() == layer(h, leaves, level)[k],
{
}

/// A list of leaf digests, each by its view.
pub open spec fn digests(leaves: Seq<Vec<u8>>) -> Seq<Seq<u8>> {
    leaves.map_values(|leaf: Vec<u8>| leaf@)
}

/// An item that a tree can be built over: anything that is a string of
/// bytes.
pub trait AsBytes {
    /// The item's bytes.
    spec fn byte_view(&self) -> Seq<u8>;

    /// The item's bytes.
    fn as_byte_slice(&self) -> (slice: &[u8])
        ensures
            slice@ == self.byte_view(),
    ;
}

impl<'a> AsBytes for &'a [u8] {
    open spec fn byte_view(&self) -> Seq<u8> {
        self@
    }

    fn as_byte_slice(&self) -> (slice: &[u8]) {
        *self
    }
}

impl AsBytes for Vec<u8> {
    open spec fn byte_view(&self) -> Seq<u8> {
        self@
    }

    fn as_byte_slice(&self) -> (slice: &[u8]) {
        self.as_slice()
    }
}

impl<'a> AsBytes for &'a Vec<u8> {
    open spec fn byte_view(&self) -> Seq<u8> {
        self@
    }

    fn as_byte_slice(&self) -> (slice: &[u8]) {
        self.as_slice()
    }
}

impl<'a> AsBytes for &'a str {
    open spec fn byte_view(&self) -> Seq<u8> {
        self.spec_bytes()
    }

    fn as_byte_slice(&self) -> (slice: &[u8]) {
        self.as_bytes()
    }
}

impl<const N: usize> AsBytes for [u8; N] {
    open spec fn byte_view(&self) -> Seq<u8> {
        self@
    }

    fn as_byte_slice(&self) -> (slice: &[u8]) {
        self.as_slice()
    }
}

impl<'a, const N: usize> AsBytes for &'a [u8; N] {
    open spec fn byte_view(&self) -> Seq<u8> {
        self@
    }

    fn as_byte_slice(&self) -> (slice: &[u8]) {
        self.as_slice()
    }
}

/// The leaf digests of a list of items: each item's bytes, hashed.
pub open spec fn item_digests<H: Hasher, T: AsBytes>(h: &H, items: Seq<T>) -> Seq<Seq<u8>> {
    items.map_values(|item: T| h.digest(item.byte_view()))
}

/// The steps in the opposite order.
fn reverse_steps(steps: Vec<ProofStep>) -> (out: Vec<ProofStep>)
    ensures
        out@ == steps@.reverse(),
{
    let ghost all = steps@;
    let mut rest = steps;
    let mut out: Vec<ProofStep> = Vec::new();
    while rest.len() > 0
        invariant
            rest@.len() + out@.len() == all.len(),
            rest@ == all.take(rest@.len() as int),
            forall|j: int| 0 <= j < out@.len() ==> out@[j] == all[all.len() - 1 - j],
        decreases rest@.len(),
    {
        let ghost before = rest@;
        match rest.pop() {
            Some(step) => {
                assert(step == all[before.len() - 1]);
                out.push(step);
            },
            None => {},
        }
        assert(rest@ =~= all.take(rest@.len() as int));
    }
    assert(out@ =~= all.reverse());
    out
}

/// A node of the tree: a digest, and two children unless it is a leaf.
#[derive(Debug)]
struct MerkleNode {
    hash: Vec<u8>,
    left: Option<Box<MerkleNode>>,
    right: Option<Box<MerkleNode>>,
}

impl MerkleNode {
    /// The node and all below it, as mathematics.
    pub closed spec fn model(&self) -> TreeModel
        decreases self,
    {
        match (self.left, self.right) {
            (Some(l), Some(r)) => TreeModel::Internal {
                hash: self.hash@,
                left: Box::new(l.model()),
                right: Box::new(r.model()),
            },
            _ => TreeModel::Leaf { hash: self.hash@ },
        }
    }

    fn new_leaf(hash: Vec<u8>) -> (node: Self)
        ensures
            node.model() == (TreeModel::Leaf { hash: hash@ }),
    {
        MerkleNode { hash, left: None, right: None }
    }

    fn new_internal(hash: Vec<u8>, left: MerkleNode, right: MerkleNode) -> (node: Self)
        ensures
            node.model() == (TreeModel::Internal {
                hash: hash@,
                left: Box::new(left.model()),
                right: Box::new(right.model()),
            }),
    {
        MerkleNode { hash, left: Some(Box::new(left)), right: Some(Box::new(right)) }
    }

    fn is_leaf(&self) -> (leaf: bool)
        ensures
            leaf == (self.left is None && self.right is None),
    {
        self.left.is_none() && self.right.is_none()
    }

    /// A copy of the node and of all below it.
    fn duplicate(&self) -> (copy: Self)
        ensures
            copy.model() == self.model(),
        decreases self,
    {
        let hash = self.hash.clone();
        assert(hash@ =~= self.hash@);
        match (&self.left, &self.right) {
            (Some(l), Some(r)) => {
                let left = l.duplicate();
                let right = r.duplicate();
                MerkleNode::new_internal(hash, left, right)
            },
            _ => MerkleNode::new_leaf(hash),
        }
    }
}

impl Clone for MerkleNode {
    fn clone(&self) -> (copy: Self)
        ensures
            copy.model() == self.model(),
    {
        self.duplicate()
    }
}

/// A binary Merkle tree over an ordered, non-empty list of leaf digests.
///
/// Levels are built from the leaves up: nodes are paired from the left, and
/// a last node without a partner is paired with itself.
#[derive(Debug, Clone)]
pub struct MerkleTree<H: Hasher> {
    root: Option<MerkleNode>,
    leaves: Vec<Vec<u8>>,
    hasher: H,
}

impl<H: Hasher> View for MerkleTree<H> {
    type V = Seq<Seq<u8>>;

    /// The leaf digests, in order.
    closed spec fn view(&self) -> Seq<Seq<u8>> {
        digests(self.leaves@)
    }
}

impl<H: Hasher> MerkleTree<H> {
    /// What every tree made by `new` or `from_leaves` satisfies: it has at
    /// least one leaf, and its nodes are those of the tree over its leaves.
    pub closed spec fn wf(&self) -> bool {
        &&& self.leaves@.len() >= 1
        &&& self.root matches Some(node) && node.model() == subtree(
            &self.hasher,
            self@,
            tree_height(self@.len()),
            0,
        )
    }

    /// The hash capability that the tree was built with.
    pub closed spec fn spec_hasher(&self) -> H {
        self.hasher
    }

    /// Create a tree over the given items: each is hashed into a leaf.
    pub fn new<T: AsBytes>(data: Vec<T>, hasher: H) -> (result: Result<Self, MerkleError>)
        ensures
            match result {
                Ok(tree) => data@.len() > 0 && tree.wf() && tree@ == item_digests(&hasher, data@)
                    && tree.spec_hasher() == hasher,
                Err(e) => data@.len() == 0 && e is EmptyData,
            },
    {
        if data.len() == 0 {
            return Err(MerkleError::EmptyData);
        }
        let mut leaves: Vec<Vec<u8>> = Vec::new();
        let mut i: usize = 0;
        while i < data.len()
            invariant
                i <= data@.len(),
                leaves@.len() == i,
                forall|j: int| 0 <= j < i ==> (#[trigger] leaves@[j])@ == hasher.digest(data@[j].byte_view()),
            decreases data@.len() - i,
        {
            leaves.push(hasher.hash(data[i].as_byte_slice()));
            i += 1;
        }
        assert(digests(leaves@) =~= item_digests(&hasher, data@));
        Self::from_leaves(leaves, hasher)
    }

    /// Create a tree from leaves that are already digests.
    pub fn from_leaves(leaves: Vec<Vec<u8>>, hasher: H) -> (result: Result<Self, MerkleError>)
        ensures
            match result {
                Ok(tree) => leaves@.len() > 0 && tree.wf() && tree@ == digests(leaves@)
                    && tree.spec_hasher() == hasher,
                Err(e) => leaves@.len() == 0 && e is EmptyData,
            },
    {
        match Self::build_tree(leaves.as_slice(), &hasher) {
            Ok(root) => Ok(MerkleTree { root: Some(root), leaves, hasher }),
            Err(e) => Err(e),
        }
    }

    /// Get the root digest of the tree.
    pub fn root(&self) -> (root: &[u8])
        requires
            self.wf(),
        ensures
            root@ == merkle_root(&self.spec_hasher(), self@),
    {
        match &self.root {
            Some(node) => {
                proof {
                    lemma_subtree_digest(&self.hasher, self@, tree_height(self@.len()), 0);
                }
                node.hash.as_slice()
            },
            None => {
                let nothing: &[u8] = &[];
                nothing
            },
        }
    }

    /// Get the number of leaves in the tree.
    pub fn len(&self) -> (n: usize)
        ensures
            n == self@.len(),
            self.wf() ==> n >= 1,
    {
        self.leaves.len()
    }

    /// Check if the tree has no leaves, which no well-formed tree does.
    pub fn is_empty(&self) -> (empty: bool)
        ensures
            empty == (self@.len() == 0),
            self.wf() ==> !empty,
    {
        self.leaves.len() == 0
    }

    /// Get the leaf digest at the given index.
    pub fn get_leaf(&self, index: usize) -> (result: Result<&[u8], MerkleError>)
        ensures
            match result {
                Ok(leaf) => index < self@.len() && leaf@ == self@[index as int],
                Err(e) => index >= self@.len() && e == (MerkleError::InvalidIndex {
                    index,
                    size: self@.len() as usize,
                }),
            },
    {
        if index < self.leaves.len() {
            Ok(self.leaves[index].as_slice())
        } else {
            Err(MerkleError::InvalidIndex { index, size: self.leaves.len() })
        }
    }

    /// Generate the proof for the leaf at the given index: one step for each
    /// level of the tree, the leaf's own sibling first. The proof leads to
    /// the root from the digest of the leaf at `proven_leaf`, which is the
    /// leaf asked for wherever the halving of index ranges on the way down
    /// agrees with the shape of the tree.
    pub fn generate_proof(&self, index: usize) -> (result: Result<MerkleProof, MerkleError>)
        requires
            self.wf(),
        ensures
            match result {
                Ok(proof) => {
                    &&& index < self@.len()
                    &&& proof@.leaf_index == index
                    &&& proof@.steps == proof_steps(&self.spec_hasher(), self@, index as int)
                    &&& proof@.steps.len() == tree_height(self@.len())
                    &&& 0 <= proven_leaf(self@.len(), index as int) < self@.len()
                    &&& fold_steps(
                        &self.spec_hasher(),
                        proof@.steps,
                        self@[proven_leaf(self@.len(), index as int)],
                    ) == merkle_root(&self.spec_hasher(), self@)
                },
                Err(e) => index >= self@.len() && e == (MerkleError::InvalidIndex {
                    index,
                    size: self@.len() as usize,
                }),
            },
    {
        if index >= self.leaves.len() {
            return Err(MerkleError::InvalidIndex { index, size: self.leaves.len() });
        }
        match &self.root {
            Some(root) => {
                let mut steps: Vec<ProofStep> = Vec::new();
                let ghost height = tree_height(self@.len());
                proof {
                    lemma_single_root(self@.len());
                }
                self.collect_proof_steps(
                    root,
                    index,
                    0,
                    self.leaves.len(),
                    &mut steps,
                    Ghost(height),
                    Ghost(0),
                );
                let steps = reverse_steps(steps);
                proof {
                    let path = proof_steps(&self.hasher, self@, index as int);
                    assert(steps_view(steps@) =~= path.reverse().reverse());
                    assert(path.reverse().reverse() =~= path);
                    lemma_auth_path_len(
                        &self.hasher,
                        self@,
                        height,
                        0,
                        index as int,
                        0,
                        self@.len() as int,
                    );
                    lemma_proof_reaches_root(&self.hasher, self@, index as int);
                }
                Ok(MerkleProof::new(index, steps))
            },
            None => Err(
                MerkleError::TreeConstructionError { reason: String::from_str("Tree has no root") },
            ),
        }
    }

    /// Verify a proof for the given leaf data against the given root.
    pub fn verify_proof(&self, proof: &MerkleProof, leaf_data: &[u8], root: &[u8]) -> (ok: bool)
        ensures
            ok == (fold_steps(
                &self.spec_hasher(),
                proof@.steps,
                self.spec_hasher().digest(leaf_data@),
            ) == root@),
    {
        proof.verify(&self.hasher, leaf_data, root)
    }

    /// Verify a proof for the given leaf data against this tree's root.
    pub fn verify_proof_against_root(&self, proof: &MerkleProof, leaf_data: &[u8]) -> (ok: bool)
        requires
            self.wf(),
        ensures
            ok == (fold_steps(
                &self.spec_hasher(),
                proof@.steps,
                self.spec_hasher().digest(leaf_data@),
            ) == merkle_root(&self.spec_hasher(), self@)),
    {
        self.verify_proof(proof, leaf_data, self.root())
    }

    /// Get all leaf digests.
    pub fn leaves(&self) -> (leaves: &[Vec<u8>])
        ensures
            digests(leaves@) == self@,
    {
        self.leaves.as_slice()
    }

    /// Get the hash capability used by this tree.
    pub fn hasher(&self) -> (hasher: &H)
        ensures
            *hasher == self.spec_hasher(),
    {
        &self.hasher
    }

    /// Collect the steps of a proof on the way down from `node`, the
    /// topmost step first.
    fn collect_proof_steps(
        &self,
        node: &MerkleNode,
        target_index: usize,
        start_index: usize,
        range_size: usize,
        steps: &mut Vec<ProofStep>,
        Ghost(level): Ghost<nat>,
        Ghost(k): Ghost<int>,
    )
        requires
            self@.len() >= 1,
            0 <= k < layer_width(self@.len(), level),
            node.model() == subtree(&self.hasher, self@, level, k),
            start_index <= target_index < start_index + range_size <= self@.len(),
        ensures
            steps_view(final(steps)@) == steps_view(old(steps)@) + auth_path(
                &self.hasher,
                self@,
                level,
                k,
                target_index as int,
                start_index as int,
                range_size as int,
            ).reverse(),
        decreases level,
    {
        if node.is_leaf() {
            assert(level == 0);
            assert(steps_view(steps@) =~= steps_view(steps@) + Seq::<StepModel>::empty().reverse());
            return ;
        }
        match (&node.left, &node.right) {
            (Some(left_node), Some(right_node)) => {
                let ghost down = (level - 1) as nat;
                let ghost width = layer_width(self@.len(), down);
                let ghost li = 2 * k;
                let ghost ri = right_child(k, width);
                let ghost path = auth_path(
                    &self.hasher,
                    self@,
                    level,
                    k,
                    target_index as int,
                    start_index as int,
                    range_size as int,
                );
                let ghost before = steps@;
                proof {
                    lemma_layer_len(&self.hasher, self@, down);
                    lemma_subtree_digest(&self.hasher, self@, down, li);
                    lemma_subtree_digest(&self.hasher, self@, down, ri);
                }
                let leaf_count = self.leaves.len();
                assert(self@.len() == leaf_count);
                let mid = start_index + (range_size - range_size / 2);
                assert(mid == split_point(start_index as int, range_size as int));
                if target_index < mid {
                    let hash = right_node.hash.clone();
                    assert(hash@ =~= right_node.hash@);
                    steps.push(ProofStep { hash, direction: ProofDirection::Right });
                    self.collect_proof_steps(
                        left_node,
                        target_index,
                        start_index,
                        mid - start_index,
                        steps,
                        Ghost(down),
                        Ghost(li),
                    );
                    proof {
                        let sub = auth_path(
                            &self.hasher,
                            self@,
                            down,
                            li,
                            target_index as int,
                            start_index as int,
                            mid - start_index,
                        );
                        let top = StepModel {
                            hash: layer(&self.hasher, self@, down)[ri],
                            direction: ProofDirection::Right,
                        };
                        assert(path == sub.push(top));
                        assert(path.reverse() =~= seq![top] + sub.reverse());
                        assert(steps_view(before.push(ProofStep { hash, direction: ProofDirection::Right }))
                            =~= steps_view(before) + seq![top]);
                        assert(steps_view(steps@) =~= steps_view(before) + path.reverse());
                    }
                } else {
                    let hash = left_node.hash.clone();
                    assert(hash@ =~= left_node.hash@);
                    assert(left_node.hash@ == left_node.model().digest());
                    steps.push(ProofStep { hash, direction: ProofDirection::Left });
                    self.collect_proof_steps(
                        right_node,
                        target_index,
                        mid,
                        range_size - (mid - start_index),
                        steps,
                        Ghost(down),
                        Ghost(ri),
                    );
                    proof {
                        let sub = auth_path(
                            &self.hasher,
                            self@,
                            down,
                            ri,
                            target_index as int,
                            mid as int,
                            range_size - (mid - start_index),
                        );
                        let top = StepModel {
                            hash: layer(&self.hasher, self@, down)[li],
                            direction: ProofDirection::Left,
                        };
                        assert(path == sub.push(top));
                        assert(path.reverse() =~= seq![top] + sub.reverse());
                        assert(steps_view(before.push(ProofStep { hash, direction: ProofDirection::Left }))
                            =~= steps_view(before) + seq![top]);
                        assert(steps_view(steps@) =~= steps_view(before) + path.reverse());
                    }
                }
            },
            _ => {
                assert(level == 0);
                assert(steps_view(steps@) =~= steps_view(steps@) + Seq::<StepModel>::empty().reverse());
            },
        }
    }

    /// Get the tree's statistics, for debugging.
    pub fn stats(&self) -> (stats: TreeStats)
        requires
            self.wf(),
        ensures
            stats.leaf_count == self@.len(),
            stats.tree_height == tree_height(self@.len()),
            stats.hasher_name@ == self.spec_hasher().label(),
            stats.root_hash@ == hex_string(merkle_root(&self.spec_hasher(), self@)),
    {
        TreeStats {
            leaf_count: self.leaves.len(),
            tree_height: self.calculate_height(),
            hasher_name: String::from_str(self.hasher.name()),
            root_hash: hex_encode(self.root()),
        }
    }

    /// Calculate the height of the tree: the number of levels above the
    /// leaves.
    fn calculate_height(&self) -> (height: usize)
        ensures
            height == tree_height(self@.len()),
    {
        let mut height: usize = 0;
        let mut nodes: usize = self.leaves.len();
        proof {
            if nodes >= 1 {
                lemma_height_below_size(nodes as nat);
            }
        }
        while nodes > 1
            invariant
                height + tree_height(nodes as nat) == tree_height(self@.len()),
                tree_height(self@.len()) <= usize::MAX,
            decreases nodes,
        {
            nodes = nodes - nodes / 2;
            height += 1;
        }
        height
    }

    /// Build the tree from leaf digests.
    fn build_tree(leaves: &[Vec<u8>], hasher: &H) -> (result: Result<MerkleNode, MerkleError>)
        ensures
            match result {
                Ok(node) => leaves@.len() > 0 && node.model() == subtree(
                    hasher,
                    digests(leaves@),
                    tree_height(leaves@.len()),
                    0,
                ),
                Err(e) => leaves@.len() == 0 && e is EmptyData,
            },
    {
        if leaves.len() == 0 {
            return Err(MerkleError::EmptyData);
        }
        let ghost d = digests(leaves@);
        let ghost n = leaves@.len();
        let mut current: Vec<MerkleNode> = Vec::new();
        let mut i: usize = 0;
        while i < leaves.len()
            invariant
                i <= leaves@.len(),
                d == digests(leaves@),
                current@.len() == i,
                forall|j: int| 0 <= j < i ==> (#[trigger] current@[j]).model() == subtree(hasher, d, 0, j),
            decreases leaves@.len() - i,
        {
            let hash = leaves[i].clone();
            assert(hash@ =~= leaves@[i as int]@);
            current.push(MerkleNode::new_leaf(hash));
            i += 1;
        }
        let ghost mut level: nat = 0;
        while current.len() > 1
            invariant
                n >= 1,
                n == d.len(),
                level <= tree_height(n),
                tree_height(n) == level + tree_height(current@.len()),
                current@.len() == layer_width(n, level),
                current@.len() >= 1,
                forall|j: int|
                    0 <= j < current@.len() ==> (#[trigger] current@[j]).model() == subtree(
                        hasher,
                        d,
                        level,
                        j,
                    ),
            decreases current@.len(),
        {
            let width = current.len();
            let parents = width - width / 2;
            let mut next: Vec<MerkleNode> = Vec::new();
            let mut k: usize = 0;
            proof {
                lemma_layer_len(hasher, d, level);
            }
            while k < parents
                invariant
                    n == d.len(),
                    width == current@.len(),
                    width > 1,
                    width == layer_width(n, level),
                    layer(hasher, d, level).len() == width,
                    parents == half_up(width as nat),
                    k <= parents,
                    next@.len() == k,
                    forall|j: int|
                        0 <= j < width ==> (#[trigger] current@[j]).model() == subtree(
                            hasher,
                            d,
                            level,
                            j,
                        ),
                    forall|j: int|
                        0 <= j < k ==> (#[trigger] next@[j]).model() == subtree(
                            hasher,
                            d,
                            level + 1,
                            j,
                        ),
                decreases parents - k,
            {
                let l = 2 * k;
                let r = if l + 1 < width {
                    l + 1
                } else {
                    l
                };
                let left = current[l].clone();
                let right = current[r].clone();
                proof {
                    lemma_subtree_digest(hasher, d, level, l as int);
                    lemma_subtree_digest(hasher, d, level, r as int);
                    assert(left.hash@ == left.model().digest());
                    assert(right.hash@ == right.model().digest());
                }
                let hash = hasher.hash_pair(left.hash.as_slice(), right.hash.as_slice());
                next.push(MerkleNode::new_internal(hash, left, right));
                k += 1;
            }
            current = next;
            proof {
                level = level + 1;
            }
        }
        proof {
            lemma_single_root(n);
        }
        match current.pop() {
            Some(node) => Ok(node),
            None => Err(MerkleError::EmptyData),
        }
    }
}

/// Statistics of a tree, for debugging and analysis.
#[derive(Debug, Clone)]
pub struct TreeStats {
    pub leaf_count: usize,
    pub tree_height: usize,
    pub hasher_name: String,
    pub root_hash: String,
}

} // verus!
