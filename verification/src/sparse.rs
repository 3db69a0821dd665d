use crate::error::MerkleError;
use crate::hasher::{combine, Hasher};
use crate::merkle_proof::{
    bytes_equal, fold_steps, steps_view, MerkleProof, ProofDirection, ProofStep, StepModel,
};
use crate::text::{decimal_string, decimal_text, hex_encode, hex_string};
use std::collections::HashMap;
use vstd::arithmetic::div_mod::lemma_div_denominator;
use vstd::arithmetic::power2::{
    lemma2_to64, lemma_pow2_pos, lemma_pow2_strictly_increases, lemma_pow2_unfold, pow2,
};
use vstd::bits::{lemma_u128_shr_is_div, lemma_u64_shl_is_mul};
use vstd::prelude::*;
use vstd::slice::slice_to_vec;
use vstd::seq_lib::{to_multiset_build, to_multiset_contains, to_multiset_insert};
use vstd::std_specs::hash::{axiom_spec_keys_iter, spec_keys_iter};
use vstd::std_specs::iter::IteratorSpec;
use vstd::string::StringExecFns;

verus! {

broadcast use vstd::std_specs::hash::group_hash_axioms;

/// The digest that every empty slot holds: 32 zero bytes.
pub const DEFAULT_HASH: [u8; 32] = [
    0, 0, 0, 0, 0, 0, 0, 0, 0, 0, 0, 0, 0, 0, 0, 0, 0, 0, 0, 0, 0, 0, 0, 0, 0, 0, 0, 0, 0, 0, 0, 0,
];

/// The digest that every empty slot holds, as mathematics.
pub open spec fn default_digest() -> Seq<u8> {
    Seq::new(32, |i: int| 0u8)
}

/// A sparse tree as mathematics: its depth, and the digests of the slots
/// that hold a value.
pub struct SparseModel {
    pub depth: nat,
    pub slots: Map<u64, Seq<u8>>,
}

impl SparseModel {
    /// What the model of every tree satisfies: the depth is between 1 and
    /// 64, and every slot that holds a value lies below `2^depth`.
    pub open spec fn valid(self) -> bool {
        &&& 1 <= self.depth <= 64
        &&& forall|k: u64| #[trigger] self.slots.contains_key(k) ==> k < pow2(self.depth)
    }

    /// The model after `update` has stored `digest` in the slot at `index`.
    pub open spec fn updated(self, index: u64, digest: Seq<u8>) -> SparseModel {
        SparseModel { depth: self.depth, slots: self.slots.insert(index, digest) }
    }

    /// The model after `remove` has emptied the slot at `index`.
    pub open spec fn removed(self, index: u64) -> SparseModel {
        SparseModel { depth: self.depth, slots: self.slots.remove(index) }
    }

    /// The model of the tree of the same depth in which no slot holds a
    /// value.
    pub open spec fn emptied(self) -> SparseModel {
        SparseModel { depth: self.depth, slots: Map::empty() }
    }
}

/// The digest at a position of level 0: the stored digest where a slot
/// holds one, the default digest everywhere else.
pub open spec fn slot_digest(slots: Map<u64, Seq<u8>>, index: nat) -> Seq<u8> {
    if index <= u64::MAX && slots.contains_key(index as u64) {
        slots[index as u64]
    } else {
        default_digest()
    }
}

/// The digest of node `index` of `level`: at level 0 the slot's digest, and
/// above it the combination of the nodes `2 * index` and `2 * index + 1`
/// one level down.
pub open spec fn node_digest<H: Hasher>(h: &H, slots: Map<u64, Seq<u8>>, level: nat, index: nat) -> Seq<
    u8,
>
    decreases level,
{
    if level == 0 {
        slot_digest(slots, index)
    } else {
        combine(
            h,
            node_digest(h, slots, (level - 1) as nat, 2 * index),
            node_digest(h, slots, (level - 1) as nat, 2 * index + 1),
        )
    }
}

/// Whether position `slot` of level 0 lies below node `index` of `level`.
pub open spec fn lies_below(slot: nat, level: nat, index: nat) -> bool {
    slot / pow2(level) == index
}

/// Whether `keys` lists the slots that hold a value and lie below node
/// `index` of `level`, all of them and no others.
pub open spec fn lists_slots_below(
    keys: Seq<u64>,
    slots: Map<u64, Seq<u8>>,
    level: nat,
    index: nat,
) -> bool {
    forall|k: u64| keys.contains(k) <==> slots.contains_key(k) && lies_below(k as nat, level, index)
}

/// The digest of a node of `level` below which no slot holds a value.
pub open spec fn empty_digest<H: Hasher>(h: &H, level: nat) -> Seq<u8>
    decreases level,
{
    if level == 0 {
        default_digest()
    } else {
        combine(h, empty_digest(h, (level - 1) as nat), empty_digest(h, (level - 1) as nat))
    }
}

/// The root of a sparse tree: the node with index 1 at level `depth`.
pub open spec fn sparse_root<H: Hasher>(h: &H, model: SparseModel) -> Seq<u8> {
    node_digest(h, model.slots, model.depth, 1)
}

/// The position next to `index` under the same parent.
pub open spec fn sibling(index: nat) -> nat {
    if index % 2 == 0 {
        index + 1
    } else {
        (index - 1) as nat
    }
}

/// The proof step at node `index` of `level`: the sibling's digest, on the
/// right when `index` is even and on the left when it is odd.
pub open spec fn sparse_step<H: Hasher>(
    h: &H,
    slots: Map<u64, Seq<u8>>,
    level: nat,
    index: nat,
) -> StepModel {
    StepModel {
        hash: node_digest(h, slots, level, sibling(index)),
        direction: if index % 2 == 0 {
            ProofDirection::Right
        } else {
            ProofDirection::Left
        },
    }
}

/// The steps of the proof for the slot at `index`: one for each level below
/// the root, the slot's own sibling first. At level `l` the node on the
/// slot's way up is `index / 2^l`.
pub open spec fn sparse_steps<H: Hasher>(h: &H, model: SparseModel, index: nat) -> Seq<StepModel> {
    Seq::new(
        model.depth,
        |level: int| sparse_step(h, model.slots, level as nat, index / pow2(level as nat)),
    )
}

/// The stored digests of a map of leaves, each by its view.
pub open spec fn slot_views(leaves: Map<u64, Vec<u8>>) -> Map<u64, Seq<u8>> {
    leaves.map_values(|leaf: Vec<u8>| leaf@)
}

/// A sparse Merkle tree of fixed depth over the slots `0 .. 2^depth`.
///
/// Slots without a value hold `DEFAULT_HASH`. Digests of internal nodes are
/// computed when asked for and kept until the next change.
#[derive(Debug, Clone)]
pub struct SparseMerkleTree<H: Hasher> {
    /// Map from slot index to leaf digest.
    leaves: HashMap<u64, Vec<u8>>,
    /// Digests of internal nodes computed so far; the node `index` of
    /// `level` is kept under `index * 256 + level`.
    nodes: HashMap<u128, Vec<u8>>,
    /// The depth of the tree.
    depth: u8,
    /// The hash capability.
    hasher: H,
    /// The root, once computed.
    root_cache: Option<Vec<u8>>,
}

impl<H: Hasher> View for SparseMerkleTree<H> {
    type V = SparseModel;

    closed spec fn view(&self) -> SparseModel {
        SparseModel { depth: self.depth as nat, slots: slot_views(self.leaves@) }
    }
}

/// The default digest, as a vector.
fn default_hash() -> (hash: Vec<u8>)
    ensures
        hash@ == default_digest(),
{
    let hash = slice_to_vec(DEFAULT_HASH.as_slice());
    assert(hash@ =~= default_digest());
    hash
}

/// Those of `keys` that lie below the node at the given index and level.
fn keep_below(keys: &Vec<u64>, index: u128, level: u8) -> (kept: Vec<u64>)
    requires
        level <= 64,
    ensures
        forall|k: u64|
            kept@.contains(k) <==> keys@.contains(k) && lies_below(
                k as nat,
                level as nat,
                index as nat,
            ),
{
    let mut kept: Vec<u64> = Vec::new();
    let mut i: usize = 0;
    while i < keys.len()
        invariant
            level <= 64,
            i <= keys@.len(),
            forall|a: int|
                0 <= a < kept@.len() ==> keys@.contains(#[trigger] kept@[a]) && lies_below(
                    kept@[a] as nat,
                    level as nat,
                    index as nat,
                ),
            forall|j: int|
                0 <= j < i && lies_below(keys@[j] as nat, level as nat, index as nat)
                    ==> kept@.contains(#[trigger] keys@[j]),
        decreases keys@.len() - i,
    {
        let key = keys[i];
        proof {
            lemma_u128_shr_is_div(key as u128, level as u128);
        }
        if ((key as u128) >> level) == index {
            let ghost before = kept@;
            kept.push(key);
            proof {
                assert(kept@[before.len() as int] == key);
                assert(keys@[i as int] == key);
                assert forall|j: int|
                    0 <= j < i + 1 && lies_below(
                        keys@[j] as nat,
                        level as nat,
                        index as nat,
                    ) implies kept@.contains(#[trigger] keys@[j]) by {
                    if j < i {
                        let a = choose|a: int| 0 <= a < before.len() && before[a] == keys@[j];
                        assert(kept@[a] == keys@[j]);
                    }
                }
            }
        }
        i += 1;
    }
    proof {
        assert forall|k: u64|
            keys@.contains(k) && lies_below(
                k as nat,
                level as nat,
                index as nat,
            ) implies kept@.contains(k) by {
            let j = choose|j: int| 0 <= j < keys@.len() && keys@[j] == k;
            assert(kept@.contains(keys@[j]));
        }
    }
    kept
}

/// The same numbers in ascending order.
fn sorted_ascending(values: &Vec<u64>) -> (sorted: Vec<u64>)
    ensures
        sorted@.to_multiset() == values@.to_multiset(),
        forall|a: int, b: int| 0 <= a <= b < sorted@.len() ==> sorted@[a] <= sorted@[b],
{
    let mut sorted: Vec<u64> = Vec::new();
    let mut i: usize = 0;
    assert(values@.take(0) =~= Seq::<u64>::empty());
    while i < values.len()
        invariant
            i <= values@.len(),
            sorted@.len() == i,
            sorted@.to_multiset() == values@.take(i as int).to_multiset(),
            forall|a: int, b: int| 0 <= a <= b < sorted@.len() ==> sorted@[a] <= sorted@[b],
        decreases values@.len() - i,
    {
        let value = values[i];
        let mut at: usize = 0;
        let mut end: usize = sorted.len();
        while at < end
            invariant
                at <= end <= sorted@.len(),
                forall|a: int, b: int| 0 <= a <= b < sorted@.len() ==> sorted@[a] <= sorted@[b],
                forall|a: int| 0 <= a < at ==> sorted@[a] <= value,
                forall|a: int| end <= a < sorted@.len() ==> value < sorted@[a],
            decreases end - at,
        {
            let middle = at + (end - at) / 2;
            if sorted[middle] <= value {
                at = middle + 1;
            } else {
                end = middle;
            }
        }
        proof {
            to_multiset_insert(sorted@, at as int, value);
            to_multiset_build(values@.take(i as int), value);
            assert(values@.take(i + 1) =~= values@.take(i as int).push(value));
        }
        sorted.insert(at, value);
        i += 1;
    }
    assert(values@.take(i as int) =~= values@);
    sorted
}

/// The text of the error for a depth that is not between 1 and 64.
pub open spec fn invalid_depth_text(depth: u8) -> Seq<char> {
    "Invalid depth: "@ + decimal_string(depth as nat) + ". Must be between 1 and 64"@
}

impl<H: Hasher> SparseMerkleTree<H> {
    /// What every tree made by `new` satisfies and every method keeps: the
    /// depth is between 1 and 64, every stored slot lies below `2^depth`,
    /// and every digest kept for an internal node or for the root is the
    /// one that the current slots give.
    pub closed spec fn wf(&self) -> bool {
        &&& 1 <= self.depth <= 64
        &&& forall|k: u64| #[trigger] self.leaves@.contains_key(k) ==> k < pow2(self.depth as nat)
        &&& forall|key: u128| #[trigger]
            self.nodes@.contains_key(key) ==> self.nodes@[key]@ == node_digest(
                &self.hasher,
                self@.slots,
                (key % 256) as nat,
                (key / 256) as nat,
            )
        &&& self.root_cache matches Some(root) ==> root@ == sparse_root(&self.hasher, self@)
    }

    /// The hash capability that the tree was built with.
    pub closed spec fn spec_hasher(&self) -> H {
        self.hasher
    }

    /// The model of a well-formed tree is valid.
    pub proof fn lemma_wf_model_valid(&self)
        requires
            self.wf(),
        ensures
            self@.valid(),
    {
    }

    /// How many digests of internal nodes are kept at the moment.
    pub closed spec fn cached_nodes(&self) -> nat {
        self.nodes@.len()
    }

    /// Whether the root is kept at the moment.
    pub closed spec fn has_cached_root(&self) -> bool {
        self.root_cache is Some
    }

    /// Create an empty sparse tree of the given depth, which must be
    /// between 1 and 64.
    pub fn new(depth: u8, hasher: H) -> (result: Result<Self, MerkleError>)
        ensures
            match result {
                Ok(tree) => {
                    &&& 1 <= depth <= 64
                    &&& tree.wf()
                    &&& tree@ == (SparseModel { depth: depth as nat, slots: Map::empty() })
                    &&& tree.spec_hasher() == hasher
                    &&& tree.cached_nodes() == 0
                    &&& !tree.has_cached_root()
                },
                Err(e) => {
                    &&& depth == 0 || depth > 64
                    &&& e matches MerkleError::TreeConstructionError { reason }
                    &&& reason@ == invalid_depth_text(depth)
                },
            },
    {
        if depth == 0 || depth > 64 {
            let mut reason = String::from_str("Invalid depth: ");
            let number = decimal_text(depth as usize);
            reason.append(number.as_str());
            reason.append(". Must be between 1 and 64");
            return Err(MerkleError::TreeConstructionError { reason });
        }
        let tree = SparseMerkleTree {
            leaves: HashMap::new(),
            nodes: HashMap::new(),
            depth,
            hasher,
            root_cache: None,
        };
        assert(tree@.slots =~= Map::empty());
        Ok(tree)
    }

    /// The number of slots, `2^depth`, where it fits in 64 bits.
    fn capacity(&self) -> (slots: Option<u64>)
        requires
            self.depth <= 64,
        ensures
            match slots {
                Some(n) => self.depth < 64 && n == pow2(self.depth as nat),
                None => self.depth == 64,
            },
    {
        if self.depth < 64 {
            proof {
                lemma2_to64();
                lemma_pow2_strictly_increases(self.depth as nat, 64);
                lemma_u64_shl_is_mul(1, self.depth as u64);
            }
            Some(1u64 << self.depth)
        } else {
            None
        }
    }

    /// Insert or update the value of the slot at the given index. The
    /// digest of the value is stored; all digests kept for internal nodes
    /// are dropped.
    pub fn update(&mut self, index: u64, value: &[u8]) -> (result: Result<(), MerkleError>)
        requires
            old(self).wf(),
        ensures
            final(self).wf(),
            final(self)@.depth == old(self)@.depth,
            final(self).spec_hasher() == old(self).spec_hasher(),
            match result {
                Ok(_) => {
                    &&& index < pow2(old(self)@.depth)
                    &&& final(self)@ == old(self)@.updated(
                        index,
                        old(self).spec_hasher().digest(value@),
                    )
                    &&& final(self).cached_nodes() == 0
                    &&& !final(self).has_cached_root()
                },
                Err(e) => {
                    &&& index >= pow2(old(self)@.depth)
                    &&& e == (MerkleError::InvalidIndex {
                        index: index as usize,
                        size: pow2(old(self)@.depth) as usize,
                    })
                    &&& *final(self) == *old(self)
                },
            },
    {
        match self.capacity() {
            Some(size) => {
                if index >= size {
                    return Err(
                        MerkleError::InvalidIndex { index: #[verifier::truncate] (index as usize),
                            size: #[verifier::truncate] (size as usize),
                        },
                    );
                }
            },
            None => {
                proof {
                    lemma2_to64();
                }
            },
        }
        let leaf_hash = self.hasher.hash(value);
        let ghost before = self.leaves@;
        self.leaves.insert(index, leaf_hash);
        self.root_cache = None;
        self.nodes.clear();
        assert(slot_views(self.leaves@) =~= slot_views(before).insert(
            index,
            self.hasher.digest(value@),
        ));
        Ok(())
    }

    /// Remove the value of the slot at the given index, and say whether
    /// there was one. The slot is empty afterwards.
    pub fn remove(&mut self, index: u64) -> (result: Result<bool, MerkleError>)
        requires
            old(self).wf(),
        ensures
            final(self).wf(),
            final(self).spec_hasher() == old(self).spec_hasher(),
            result == Ok::<bool, MerkleError>(old(self)@.slots.contains_key(index)),
            final(self)@ == old(self)@.removed(index),
            if old(self)@.slots.contains_key(index) {
                final(self).cached_nodes() == 0 && !final(self).has_cached_root()
            } else {
                final(self).cached_nodes() == old(self).cached_nodes() && final(self).has_cached_root()
                    == old(self).has_cached_root()
            },
    {
        let ghost before = self.leaves@;
        let removed = self.leaves.remove(&index).is_some();
        if removed {
            self.root_cache = None;
            self.nodes.clear();
        } else {
            assert(self.leaves@ =~= before);
        }
        assert(slot_views(self.leaves@) =~= slot_views(before).remove(index));
        Ok(removed)
    }

    /// Get the root digest of the tree, computing it if it is not kept.
    pub fn root(&mut self) -> (root: &[u8])
        requires
            old(self).wf(),
        ensures
            final(self).wf(),
            final(self)@ == old(self)@,
            final(self).spec_hasher() == old(self).spec_hasher(),
            final(self).has_cached_root(),
            root@ == sparse_root(&old(self).spec_hasher(), old(self)@),
    {
        if self.root_cache.is_none() {
            let computed = self.compute_root();
            self.root_cache = Some(computed);
        }
        match &self.root_cache {
            Some(root) => root.as_slice(),
            None => DEFAULT_HASH.as_slice(),
        }
    }

    /// Generate the proof for the slot at the given index, whether it
    /// holds a value or not: one step for each level of the tree. The
    /// proof leads from the slot's digest to the digest of the node with
    /// index 0 at level `depth`, the node that lies over all slots.
    pub fn generate_proof(&mut self, index: u64) -> (result: Result<MerkleProof, MerkleError>)
        requires
            old(self).wf(),
        ensures
            final(self).wf(),
            final(self)@ == old(self)@,
            final(self).spec_hasher() == old(self).spec_hasher(),
            match result {
                Ok(proof) => {
                    &&& index < pow2(old(self)@.depth)
                    &&& proof.leaf_index == index as usize
                    &&& proof@.steps == sparse_steps(
                        &old(self).spec_hasher(),
                        old(self)@,
                        index as nat,
                    )
                    &&& fold_steps(
                        &old(self).spec_hasher(),
                        proof@.steps,
                        slot_digest(old(self)@.slots, index as nat),
                    ) == node_digest(
                        &old(self).spec_hasher(),
                        old(self)@.slots,
                        old(self)@.depth,
                        0,
                    )
                },
                Err(e) => {
                    &&& index >= pow2(old(self)@.depth)
                    &&& e == (MerkleError::InvalidIndex {
                        index: index as usize,
                        size: pow2(old(self)@.depth) as usize,
                    })
                },
            },
    {
        match self.capacity() {
            Some(size) => {
                if index >= size {
                    return Err(
                        MerkleError::InvalidIndex { index: #[verifier::truncate] (index as usize),
                            size: #[verifier::truncate] (size as usize),
                        },
                    );
                }
            },
            None => {
                proof {
                    lemma2_to64();
                }
            },
        }
        let ghost model = self@;
        let ghost path = sparse_steps(&self.hasher, model, index as nat);
        let stored = self.stored_indices();
        assert forall|k: u64| stored@.contains(k) <==> model.slots.contains_key(k) by {
            assert(stored@.contains(k) <==> stored@.to_set().contains(k));
        }
        let mut steps: Vec<ProofStep> = Vec::new();
        let mut current_index = index;
        let mut level: u8 = 0;
        proof {
            lemma2_to64();
            assert(steps_view(steps@) =~= path.take(0));
        }
        while level < self.depth
            invariant
                self.wf(),
                self@ == model,
                self.spec_hasher() == old(self).spec_hasher(),
                path == sparse_steps(&self.hasher, model, index as nat),
                level <= self.depth,
                current_index == index as nat / pow2(level as nat),
                current_index < pow2((64 - level) as nat),
                steps_view(steps@) == path.take(level as int),
                forall|k: u64| stored@.contains(k) <==> model.slots.contains_key(k),
            decreases self.depth - level,
        {
            let sibling_index = current_index ^ 1;
            let ghost up = (64 - level) as nat;
            proof {
                lemma_pow2_unfold(up);
                lemma_pow2_unfold(up + 1);
                lemma_pow2_pos(level as nat);
                lemma_pow2_unfold((level + 1) as nat);
                lemma_div_denominator(index as int, pow2(level as nat) as int, 2);
                assert(current_index % 2 == 0 ==> (current_index ^ 1) == current_index + 1)
                    by (bit_vector);
                assert(current_index % 2 != 0 ==> (current_index ^ 1) == current_index - 1)
                    by (bit_vector);
                assert(sibling_index == sibling(current_index as nat));
            }
            let below = keep_below(&stored, sibling_index as u128, level);
            let sibling_hash = self.get_node_hash(sibling_index as u128, level, &below);
            let direction = if current_index & 1 == 0 {
                ProofDirection::Right
            } else {
                ProofDirection::Left
            };
            proof {
                assert((current_index & 1 == 0) == (current_index % 2 == 0)) by (bit_vector);
                assert(current_index >> 1 == current_index / 2) by (bit_vector);
            }
            let ghost before = steps@;
            steps.push(ProofStep { hash: sibling_hash, direction });
            proof {
                let step = StepModel { hash: sibling_hash@, direction };
                assert(step == path[level as int]);
                assert(steps_view(steps@) =~= steps_view(before).push(step));
                assert(path.take(level + 1) =~= path.take(level as int).push(path[level as int]));
            }
            current_index = current_index >> 1;
            level = level + 1;
        }
        assert(path.take(level as int) =~= path);
        proof {
            lemma_sparse_proof_reaches_top(&self.hasher, model, index);
        }
        Ok(MerkleProof::new(#[verifier::truncate] (index as usize), steps))
    }

    /// Verify a proof for the slot at the given index and the given value
    /// against the tree's current root. A proof made for another index is
    /// refused.
    pub fn verify_proof(&mut self, proof: &MerkleProof, index: u64, value: &[u8]) -> (ok: bool)
        requires
            old(self).wf(),
        ensures
            final(self).wf(),
            final(self)@ == old(self)@,
            final(self).spec_hasher() == old(self).spec_hasher(),
            ok == (proof.leaf_index == index as usize && fold_steps(
                &old(self).spec_hasher(),
                proof@.steps,
                old(self).spec_hasher().digest(value@),
            ) == sparse_root(&old(self).spec_hasher(), old(self)@)),
    {
        if proof.leaf_index != #[verifier::truncate] (index as usize) {
            return false;
        }
        let leaf_hash = self.hasher.hash(value);
        let computed_root = proof.compute_root(&self.hasher, leaf_hash.as_slice());
        let actual_root = self.root();
        bytes_equal(computed_root.as_slice(), actual_root)
    }

    /// Compute the root digest.
    fn compute_root(&mut self) -> (root: Vec<u8>)
        requires
            old(self).wf(),
        ensures
            final(self).wf(),
            final(self)@ == old(self)@,
            final(self).hasher == old(self).hasher,
            final(self).root_cache == old(self).root_cache,
            root@ == sparse_root(&old(self).hasher, old(self)@),
    {
        let below: Vec<u64> = Vec::new();
        proof {
            lemma2_to64();
            if self.depth < 64 {
                lemma_pow2_strictly_increases(0, (65 - self.depth) as nat);
            }
            lemma_no_slot_below_root(self@);
        }
        self.get_node_hash(1, self.depth, &below)
    }

    /// Get the digest of the node at the given index and level: from what
    /// is kept, or from the two nodes below it, or, where no slot below it
    /// holds a value, from the default digest alone. `below` lists the
    /// slots below the node that hold a value.
    fn get_node_hash(&mut self, index: u128, level: u8, below: &Vec<u64>) -> (hash: Vec<u8>)
        requires
            old(self).wf(),
            level <= 64,
            index < pow2((65 - level) as nat),
            lists_slots_below(below@, old(self)@.slots, level as nat, index as nat),
        ensures
            final(self).wf(),
            final(self)@ == old(self)@,
            final(self).hasher == old(self).hasher,
            final(self).root_cache == old(self).root_cache,
            hash@ == node_digest(&old(self).hasher, old(self)@.slots, level as nat, index as nat),
        decreases level,
    {
        proof {
            lemma2_to64();
            lemma_pow2_unfold(65);
            lemma_pow2_unfold((65 - level + 1) as nat);
            if level > 0 {
                lemma_pow2_strictly_increases((65 - level) as nat, 65);
            }
        }
        if level == 0 {
            if index <= u64::MAX as u128 {
                let slot = index as u64;
                match self.leaves.get(&slot) {
                    Some(leaf) => {
                        let hash = leaf.clone();
                        assert(hash@ =~= leaf@);
                        return hash;
                    },
                    None => {},
                }
            }
            return default_hash();
        }
        let key: u128 = index * 256 + level as u128;
        match self.nodes.get(&key) {
            Some(kept) => {
                let hash = kept.clone();
                assert(hash@ =~= kept@);
                return hash;
            },
            None => {},
        }
        let hash = if below.len() > 0 {
            let left_child = index * 2;
            let right_child = left_child + 1;
            let below_left = keep_below(below, left_child, level - 1);
            let below_right = keep_below(below, right_child, level - 1);
            proof {
                let down = (level - 1) as nat;
                lemma_children_lie_below(level as nat, index as nat);
                assert(left_child as nat == 2 * (index as nat));
                assert(right_child as nat == 2 * (index as nat) + 1);
                assert forall|k: u64|
                    below_left@.contains(k) <==> self@.slots.contains_key(k) && lies_below(
                        k as nat,
                        down,
                        left_child as nat,
                    ) by {
                    if lies_below(k as nat, down, 2 * (index as nat)) {
                        assert(lies_below(k as nat, level as nat, index as nat));
                    }
                }
                assert forall|k: u64|
                    below_right@.contains(k) <==> self@.slots.contains_key(k) && lies_below(
                        k as nat,
                        down,
                        right_child as nat,
                    ) by {
                    if lies_below(k as nat, down, 2 * (index as nat) + 1) {
                        assert(lies_below(k as nat, level as nat, index as nat));
                    }
                }
            }
            let left_hash = self.get_node_hash(left_child, level - 1, &below_left);
            let right_hash = self.get_node_hash(right_child, level - 1, &below_right);
            self.hasher.hash_pair(left_hash.as_slice(), right_hash.as_slice())
        } else {
            proof {
                assert forall|k: u64| self@.slots.contains_key(k) implies !lies_below(
                    k as nat,
                    level as nat,
                    index as nat,
                ) by {
                    assert(!below@.contains(k));
                }
                lemma_node_without_slots(&self.hasher, self@.slots, level as nat, index as nat);
            }
            self.empty_node_hash(level)
        };
        let kept = hash.clone();
        assert(kept@ =~= hash@);
        self.nodes.insert(key, kept);
        hash
    }

    /// The digest of a node of the given level below which no slot holds a
    /// value.
    fn empty_node_hash(&self, level: u8) -> (hash: Vec<u8>)
        ensures
            hash@ == empty_digest(&self.hasher, level as nat),
    {
        let mut hash = default_hash();
        let mut below: u8 = 0;
        while below < level
            invariant
                below <= level,
                hash@ == empty_digest(&self.hasher, below as nat),
            decreases level - below,
        {
            hash = self.hasher.hash_pair(hash.as_slice(), hash.as_slice());
            below = below + 1;
        }
        hash
    }

    /// Get the indices of all slots that hold a value, in ascending order.
    pub fn leaf_indices(&self) -> (indices: Vec<u64>)
        ensures
            forall|a: int, b: int| 0 <= a < b < indices@.len() ==> indices@[a] < indices@[b],
            forall|k: u64| indices@.contains(k) <==> self@.slots.contains_key(k),
            indices@.len() == self@.slots.len(),
    {
        let stored = self.stored_indices();
        let indices = sorted_ascending(&stored);
        proof {
            stored@.lemma_multiset_has_no_duplicates();
            indices@.lemma_multiset_has_no_duplicates_conv();
            assert forall|k: u64| indices@.contains(k) <==> self@.slots.contains_key(k) by {
                to_multiset_contains(indices@, k);
                to_multiset_contains(stored@, k);
                assert(stored@.contains(k) <==> stored@.to_set().contains(k));
            }
            vstd::seq_lib::to_multiset_len(indices@);
            vstd::seq_lib::to_multiset_len(stored@);
            stored@.unique_seq_to_set();
            assert(slot_views(self.leaves@).dom() =~= self.leaves@.dom());
        }
        indices
    }

    /// Get all slots that hold a value as (index, digest) pairs, in
    /// ascending order of index.
    pub fn leaves(&self) -> (pairs: Vec<(u64, &[u8])>)
        ensures
            forall|a: int, b: int| 0 <= a < b < pairs@.len() ==> pairs@[a].0 < pairs@[b].0,
            forall|k: u64|
                self@.slots.contains_key(k) <==> exists|a: int|
                    0 <= a < pairs@.len() && #[trigger] pairs@[a].0 == k,
            forall|a: int|
                0 <= a < pairs@.len() ==> self@.slots.contains_key(#[trigger] pairs@[a].0)
                    && pairs@[a].1@ == self@.slots[pairs@[a].0],
            pairs@.len() == self@.slots.len(),
    {
        let indices = self.leaf_indices();
        let mut pairs: Vec<(u64, &[u8])> = Vec::new();
        let mut i: usize = 0;
        while i < indices.len()
            invariant
                i <= indices@.len(),
                pairs@.len() == i,
                forall|k: u64| indices@.contains(k) <==> self@.slots.contains_key(k),
                forall|a: int|
                    0 <= a < i ==> (#[trigger] pairs@[a]).0 == indices@[a] && pairs@[a].1@
                        == self@.slots[indices@[a]],
            decreases indices@.len() - i,
        {
            let index = indices[i];
            assert(indices@.contains(index));
            match self.leaves.get(&index) {
                Some(leaf) => {
                    pairs.push((index, leaf.as_slice()));
                },
                None => {
                    pairs.push((index, DEFAULT_HASH.as_slice()));
                },
            }
            i += 1;
        }
        proof {
            assert forall|k: u64| self@.slots.contains_key(k) implies exists|a: int|
                0 <= a < pairs@.len() && #[trigger] pairs@[a].0 == k by {
                assert(indices@.contains(k));
                let a = choose|a: int| 0 <= a < indices@.len() && indices@[a] == k;
                assert(pairs@[a].0 == k);
            }
            assert forall|a: int| 0 <= a < pairs@.len() implies self@.slots.contains_key(
                #[trigger] pairs@[a].0,
            ) by {
                assert(indices@.contains(indices@[a]));
            }
        }
        pairs
    }

    /// The indices of the slots that hold a value, in no particular order.
    fn stored_indices(&self) -> (indices: Vec<u64>)
        ensures
            indices@.no_duplicates(),
            indices@.to_set() == self.leaves@.dom(),
    {
        let mut indices: Vec<u64> = Vec::new();
        let ghost all = spec_keys_iter(&self.leaves).remaining();
        proof {
            axiom_spec_keys_iter(&self.leaves);
        }
        for key in it: self.leaves.keys()
            invariant
                it.seq() == all,
                indices@.len() == it.index(),
                forall|j: int| 0 <= j < indices@.len() ==> indices@[j] == *all[j],
        {
            indices.push(*key);
        }
        assert(indices@ =~= all.unref());
        indices
    }

    /// Get the digest stored in the slot at the given index.
    pub fn get(&self, index: u64) -> (result: Option<&[u8]>)
        ensures
            match result {
                Some(digest) => self@.slots.contains_key(index) && digest@ == self@.slots[index],
                None => !self@.slots.contains_key(index),
            },
    {
        match self.leaves.get(&index) {
            Some(leaf) => Some(leaf.as_slice()),
            None => None,
        }
    }

    /// Check if the slot at the given index holds a value.
    pub fn contains(&self, index: u64) -> (present: bool)
        ensures
            present == self@.slots.contains_key(index),
    {
        self.leaves.contains_key(&index)
    }

    /// Get the number of slots that hold a value.
    pub fn len(&self) -> (n: usize)
        ensures
            n == self@.slots.len(),
    {
        assert(slot_views(self.leaves@).dom() =~= self.leaves@.dom());
        self.leaves.len()
    }

    /// Check if no slot holds a value.
    pub fn is_empty(&self) -> (empty: bool)
        ensures
            empty == (self@.slots.len() == 0),
    {
        assert(slot_views(self.leaves@).dom() =~= self.leaves@.dom());
        self.leaves.len() == 0
    }

    /// Get the depth of the tree.
    pub fn depth(&self) -> (depth: u8)
        ensures
            depth == self@.depth,
    {
        self.depth
    }

    /// Get the tree's statistics, for debugging. The number of slots must
    /// fit in 64 bits, so the depth must be below 64.
    pub fn stats(&mut self) -> (stats: SparseTreeStats)
        requires
            old(self).wf(),
            old(self)@.depth < 64,
        ensures
            final(self).wf(),
            final(self)@ == old(self)@,
            final(self).spec_hasher() == old(self).spec_hasher(),
            stats.depth == old(self)@.depth,
            stats.leaf_count == old(self)@.slots.len(),
            stats.max_leaves == pow2(old(self)@.depth),
            stats.cached_nodes == old(self).cached_nodes(),
            stats.hasher_name@ == old(self).spec_hasher().label(),
            stats.root_hash@ == hex_string(sparse_root(&old(self).spec_hasher(), old(self)@)),
    {
        let depth = self.depth;
        let leaf_count = self.len();
        let max_leaves = match self.capacity() {
            Some(slots) => slots,
            None => 0,
        };
        let cached_nodes = self.nodes.len();
        let hasher_name = String::from_str(self.hasher.name());
        let root_hash = hex_encode(self.root());
        SparseTreeStats { depth, leaf_count, max_leaves, cached_nodes, hasher_name, root_hash }
    }

    /// Empty every slot and drop all digests kept.
    pub fn clear(&mut self)
        requires
            old(self).wf(),
        ensures
            final(self).wf(),
            final(self)@ == old(self)@.emptied(),
            final(self).spec_hasher() == old(self).spec_hasher(),
            final(self).cached_nodes() == 0,
            !final(self).has_cached_root(),
    {
        self.leaves.clear();
        self.nodes.clear();
        self.root_cache = None;
        assert(slot_views(self.leaves@) =~= Map::empty());
    }
}

/// What lies below a child of a node lies below the node.
pub proof fn lemma_children_lie_below(level: nat, index: nat)
    requires
        level > 0,
    ensures
        forall|slot: nat| #[trigger]
            lies_below(slot, (level - 1) as nat, 2 * index) ==> lies_below(slot, level, index),
        forall|slot: nat| #[trigger]
            lies_below(slot, (level - 1) as nat, 2 * index + 1) ==> lies_below(slot, level, index),
{
    let down = (level - 1) as nat;
    lemma_pow2_pos(down);
    lemma_pow2_unfold(level);
    assert forall|slot: nat| #[trigger] lies_below(slot, down, 2 * index) implies lies_below(
        slot,
        level,
        index,
    ) by {
        lemma_div_denominator(slot as int, pow2(down) as int, 2);
    }
    assert forall|slot: nat| #[trigger] lies_below(slot, down, 2 * index + 1) implies lies_below(
        slot,
        level,
        index,
    ) by {
        lemma_div_denominator(slot as int, pow2(down) as int, 2);
    }
}

/// No slot of a valid tree lies below the node with index 1 at level
/// `depth`.
pub proof fn lemma_no_slot_below_root(model: SparseModel)
    requires
        model.valid(),
    ensures
        forall|k: u64| model.slots.contains_key(k) ==> !lies_below(k as nat, model.depth, 1),
        lists_slots_below(Seq::empty(), model.slots, model.depth, 1),
{
    lemma_pow2_pos(model.depth);
    assert forall|k: u64| model.slots.contains_key(k) implies !lies_below(
        k as nat,
        model.depth,
        1,
    ) by {
        assert(k as nat / pow2(model.depth) == 0) by (nonlinear_arith)
            requires
                0 <= k < pow2(model.depth),
        ;
    }
}

/// A node below which no slot holds a value has the digest of an empty node
/// of its level.
pub proof fn lemma_node_without_slots<H: Hasher>(
    h: &H,
    slots: Map<u64, Seq<u8>>,
    level: nat,
    index: nat,
)
    requires
        forall|k: u64| slots.contains_key(k) ==> !lies_below(k as nat, level, index),
    ensures
        node_digest(h, slots, level, index) == empty_digest(h, level),
    decreases level,
{
    lemma2_to64();
    if level > 0 {
        let down = (level - 1) as nat;
        lemma_pow2_pos(down);
        lemma_pow2_unfold(level);
        assert forall|k: u64| slots.contains_key(k) implies !lies_below(k as nat, down, 2 * index)
            && !lies_below(k as nat, down, 2 * index + 1) by {
            lemma_div_denominator(k as int, pow2(down) as int, 2);
        }
        lemma_node_without_slots(h, slots, down, 2 * index);
        lemma_node_without_slots(h, slots, down, 2 * index + 1);
    } else {
        if index <= u64::MAX && slots.contains_key(index as u64) {
            assert(lies_below(index, 0, index));
        }
    }
}

/// The root of a tree is the digest of an empty node of level `depth`,
/// whatever the slots hold: the node with index 1 at level `depth` lies
/// over the positions from `2^depth` on, and no slot is there.
pub proof fn lemma_root_ignores_slots<H: Hasher>(h: &H, model: SparseModel)
    requires
        model.valid(),
    ensures
        sparse_root(h, model) == empty_digest(h, model.depth),
        sparse_root(h, model) == sparse_root(h, model.emptied()),
{
    lemma_no_slot_below_root(model);
    lemma_node_without_slots(h, model.slots, model.depth, 1);
    lemma_node_without_slots(h, Map::empty(), model.depth, 1);
}

/// Idempotent removal: after `update` and `remove` of one slot, a second
/// `remove` finds nothing there and changes nothing, and the root is the
/// one from before the update.
pub proof fn lemma_update_then_remove<H: Hasher>(
    h: &H,
    model: SparseModel,
    index: u64,
    value: Seq<u8>,
)
    requires
        model.valid(),
        index < pow2(model.depth),
    ensures
        !model.updated(index, h.digest(value)).removed(index).slots.contains_key(index),
        model.updated(index, h.digest(value)).removed(index).removed(index) == model.updated(
            index,
            h.digest(value),
        ).removed(index),
        sparse_root(h, model.updated(index, h.digest(value)).removed(index)) == sparse_root(
            h,
            model,
        ),
{
    let after = model.updated(index, h.digest(value)).removed(index);
    assert(after.slots.remove(index) =~= after.slots);
    lemma_root_ignores_slots(h, model);
    lemma_root_ignores_slots(h, after);
}

/// The first `levels` steps of the proof for a slot lead from the slot's
/// digest to the digest of the node above it at level `levels`.
pub proof fn lemma_sparse_steps_climb<H: Hasher>(
    h: &H,
    model: SparseModel,
    index: nat,
    levels: nat,
)
    requires
        levels <= model.depth,
    ensures
        fold_steps(
            h,
            sparse_steps(h, model, index).take(levels as int),
            slot_digest(model.slots, index),
        ) == node_digest(h, model.slots, levels, index / pow2(levels)),
    decreases levels,
{
    lemma2_to64();
    let path = sparse_steps(h, model, index);
    if levels > 0 {
        let down = (levels - 1) as nat;
        let here = index / pow2(down);
        lemma_sparse_steps_climb(h, model, index, down);
        lemma_pow2_pos(down);
        lemma_pow2_unfold(levels);
        lemma_div_denominator(index as int, pow2(down) as int, 2);
        assert(here / 2 == index / pow2(levels));
        assert(path.take(levels as int).drop_last() =~= path.take(down as int));
        assert(path.take(levels as int).last() == sparse_step(h, model.slots, down, here));
    } else {
        assert(path.take(0) =~= Seq::<StepModel>::empty());
        assert(index / 1 == index);
    }
}

/// The proof for a slot, whether it holds a value or not, leads from the
/// slot's digest to the digest of the node with index 0 at level
/// `depth`, the node that lies over all slots.
pub proof fn lemma_sparse_proof_reaches_top<H: Hasher>(h: &H, model: SparseModel, index: u64)
    requires
        model.valid(),
        index < pow2(model.depth),
    ensures
        fold_steps(h, sparse_steps(h, model, index as nat), slot_digest(model.slots, index as nat))
            == node_digest(h, model.slots, model.depth, 0),
{
    let path = sparse_steps(h, model, index as nat);
    lemma_sparse_steps_climb(h, model, index as nat, model.depth);
    assert(path.take(model.depth as int) =~= path);
    lemma_pow2_pos(model.depth);
    assert(index as nat / pow2(model.depth) == 0) by (nonlinear_arith)
        requires
            0 <= index < pow2(model.depth),
    ;
}

/// Non-membership: the proof for a slot that holds no value leads from
/// the default digest to the digest of the node that lies over all slots.
pub proof fn lemma_empty_slot_proof<H: Hasher>(h: &H, model: SparseModel, index: u64)
    requires
        model.valid(),
        index < pow2(model.depth),
        !model.slots.contains_key(index),
    ensures
        fold_steps(h, sparse_steps(h, model, index as nat), default_digest()) == node_digest(
            h,
            model.slots,
            model.depth,
            0,
        ),
{
    lemma_sparse_proof_reaches_top(h, model, index);
}

/// Non-membership by verification: the proof for a slot that holds no
/// value leads from the digest of the default digest, which is where
/// verification starts when it is given the default digest as the value, to
/// the root, provided that the hash function leaves the default digest as
/// it is and that the node over all slots has the digest of the root.
pub proof fn lemma_empty_slot_verifies<H: Hasher>(h: &H, model: SparseModel, index: u64)
    requires
        model.valid(),
        index < pow2(model.depth),
        !model.slots.contains_key(index),
        h.digest(default_digest()) == default_digest(),
        node_digest(h, model.slots, model.depth, 0) == sparse_root(h, model),
    ensures
        fold_steps(h, sparse_steps(h, model, index as nat), h.digest(default_digest()))
            == sparse_root(h, model),
{
    lemma_empty_slot_proof(h, model, index);
}

/// Statistics of a sparse tree.
#[derive(Debug, Clone)]
pub struct SparseTreeStats {
    pub depth: u8,
    pub leaf_count: usize,
    pub max_leaves: u64,
    pub cached_nodes: usize,
    pub hasher_name: String,
    pub root_hash: String,
}

} // verus!
