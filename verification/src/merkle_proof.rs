use crate::hasher::{combine, Hasher};
use crate::text::{decimal_string, decimal_text, hex_encode, hex_string};
use vstd::prelude::*;
use vstd::slice::slice_to_vec;
use vstd::string::StringExecFns;

verus! {

/// On which side of the node being proven the sibling sits.
#[derive(Debug, Clone, Copy, PartialEq, Eq, Structural)]
pub enum ProofDirection {
    Left,
    Right,
}

/// One level of a proof: the sibling's digest and its side.
#[derive(Debug, Clone, PartialEq, Eq)]
pub struct ProofStep {
    pub hash: Vec<u8>,
    pub direction: ProofDirection,
}

/// A proof that one leaf sits at `leaf_index` under some root: the siblings
/// met on the way up, the leaf's own sibling first.
#[derive(Debug, Clone, PartialEq, Eq)]
pub struct MerkleProof {
    pub leaf_index: usize,
    pub steps: Vec<ProofStep>,
}

/// A proof step as mathematics.
pub struct StepModel {
    pub hash: Seq<u8>,
    pub direction: ProofDirection,
}

/// A proof as mathematics.
pub struct ProofModel {
    pub leaf_index: nat,
    pub steps: Seq<StepModel>,
}

impl View for ProofStep {
    type V = StepModel;

    open spec fn view(&self) -> StepModel {
        StepModel { hash: self.hash@, direction: self.direction }
    }
}

/// The steps of a proof, each by its view.
pub open spec fn steps_view(steps: Seq<ProofStep>) -> Seq<StepModel> {
    steps.map_values(|s: ProofStep| s@)
}

impl View for MerkleProof {
    type V = ProofModel;

    open spec fn view(&self) -> ProofModel {
        ProofModel { leaf_index: self.leaf_index as nat, steps: steps_view(self.steps@) }
    }
}

/// The parent's digest, given one child's digest `current` and the step that
/// holds the other child.
pub open spec fn climb<H: Hasher>(h: &H, step: StepModel, current: Seq<u8>) -> Seq<u8> {
    match step.direction {
        ProofDirection::Left => combine(h, step.hash, current),
        ProofDirection::Right => combine(h, current, step.hash),
    }
}

/// The digest reached from `leaf` by climbing through `steps` in order.
pub open spec fn fold_steps<H: Hasher>(h: &H, steps: Seq<StepModel>, leaf: Seq<u8>) -> Seq<u8>
    decreases steps.len(),
{
    if steps.len() == 0 {
        leaf
    } else {
        climb(h, steps.last(), fold_steps(h, steps.drop_last(), leaf))
    }
}

/// The text of one step: `L` or `R` for the sibling's side, a colon, and the
/// sibling's digest in hexadecimal.
pub open spec fn step_text(step: StepModel) -> Seq<char> {
    let side = match step.direction {
        ProofDirection::Left => "L"@,
        ProofDirection::Right => "R"@,
    };
    side + ":"@ + hex_string(step.hash)
}

/// The texts of the steps in order, with a comma and a space between two.
pub open spec fn steps_text(steps: Seq<StepModel>) -> Seq<char>
    decreases steps.len(),
{
    if steps.len() == 0 {
        Seq::empty()
    } else if steps.len() == 1 {
        step_text(steps[0])
    } else {
        steps_text(steps.drop_last()) + ", "@ + step_text(steps.last())
    }
}

/// The text of a proof: `index:<N>, steps:[<D>:<hex>, ...]`.
pub open spec fn proof_text(proof: ProofModel) -> Seq<char> {
    "index:"@ + decimal_string(proof.leaf_index) + ", steps:["@ + steps_text(proof.steps) + "]"@
}

/// Whether the hash function sends two different inputs to the same digest.
pub open spec fn has_collision<H: Hasher>(h: &H) -> bool {
    exists|a: Seq<u8>, b: Seq<u8>| a != b && #[trigger] h.digest(a) == #[trigger] h.digest(b)
}

/// Two byte strings that agree after the same prefix is put before them are
/// the same.
pub proof fn lemma_same_prefix_cancels(prefix: Seq<u8>, a: Seq<u8>, b: Seq<u8>)
    requires
        prefix + a == prefix + b,
    ensures
        a == b,
{
    assert((prefix + a).len() == prefix.len() + a.len());
    assert((prefix + b).len() == prefix.len() + b.len());
    assert(a.len() == b.len());
    assert forall|i: int| 0 <= i < a.len() implies a[i] == b[i] by {
        assert((prefix + a)[prefix.len() + i] == a[i]);
        assert((prefix + b)[prefix.len() + i] == b[i]);
    }
    assert(a =~= b);
}

/// Two byte strings that agree after the same suffix is put behind them
/// are the same.
pub proof fn lemma_same_suffix_cancels(a: Seq<u8>, b: Seq<u8>, suffix: Seq<u8>)
    requires
        a + suffix == b + suffix,
    ensures
        a == b,
{
    assert((a + suffix).len() == a.len() + suffix.len());
    assert((b + suffix).len() == b.len() + suffix.len());
    assert(a.len() == b.len());
    assert forall|i: int| 0 <= i < a.len() implies a[i] == b[i] by {
        assert((a + suffix)[i] == a[i]);
        assert((b + suffix)[i] == b[i]);
    }
    assert(a =~= b);
}

/// One step up from two different digests gives two different digests,
/// unless the hash function has a collision.
pub proof fn lemma_climb_keeps_apart<H: Hasher>(h: &H, step: StepModel, a: Seq<u8>, b: Seq<u8>)
    requires
        a != b,
        climb(h, step, a) == climb(h, step, b),
    ensures
        has_collision(h),
{
    match step.direction {
        ProofDirection::Left => {
            if step.hash + a == step.hash + b {
                lemma_same_prefix_cancels(step.hash, a, b);
            }
            assert(h.digest(step.hash + a) == h.digest(step.hash + b));
        },
        ProofDirection::Right => {
            if a + step.hash == b + step.hash {
                lemma_same_suffix_cancels(a, b, step.hash);
            }
            assert(h.digest(a + step.hash) == h.digest(b + step.hash));
        },
    }
}

/// Climbing through the same steps from two different digests ends at two
/// different digests, unless the hash function has a collision.
pub proof fn lemma_fold_keeps_apart<H: Hasher>(h: &H, steps: Seq<StepModel>, a: Seq<u8>, b: Seq<u8>)
    requires
        a != b,
        fold_steps(h, steps, a) == fold_steps(h, steps, b),
    ensures
        has_collision(h),
    decreases steps.len(),
{
    if steps.len() > 0 {
        let below_a = fold_steps(h, steps.drop_last(), a);
        let below_b = fold_steps(h, steps.drop_last(), b);
        if below_a == below_b {
            lemma_fold_keeps_apart(h, steps.drop_last(), a, b);
        } else {
            lemma_climb_keeps_apart(h, steps.last(), below_a, below_b);
        }
    }
}

/// Climbing through `first` and then through `rest` is climbing through
/// both in one go.
pub proof fn lemma_fold_concat<H: Hasher>(
    h: &H,
    first: Seq<StepModel>,
    rest: Seq<StepModel>,
    leaf: Seq<u8>,
)
    ensures
        fold_steps(h, first + rest, leaf) == fold_steps(h, rest, fold_steps(h, first, leaf)),
    decreases rest.len(),
{
    if rest.len() == 0 {
        assert(first + rest =~= first);
    } else {
        lemma_fold_concat(h, first, rest.drop_last(), leaf);
        assert((first + rest).drop_last() =~= first + rest.drop_last());
        assert((first + rest).last() == rest.last());
    }
}

/// Tamper sensitivity, the expected root: a proof that leads to one root
/// does not verify against any other.
pub proof fn lemma_tampered_root_rejected<H: Hasher>(
    h: &H,
    steps: Seq<StepModel>,
    leaf: Seq<u8>,
    root: Seq<u8>,
    tampered: Seq<u8>,
)
    requires
        fold_steps(h, steps, leaf) == root,
        tampered != root,
    ensures
        fold_steps(h, steps, leaf) != tampered,
{
}

/// Tamper sensitivity, the leaf data: a proof that verifies for some data
/// against a root does not verify for any other data against that root,
/// unless the hash function has a collision.
pub proof fn lemma_tampered_leaf_rejected<H: Hasher>(
    h: &H,
    steps: Seq<StepModel>,
    data: Seq<u8>,
    tampered: Seq<u8>,
    root: Seq<u8>,
)
    requires
        fold_steps(h, steps, h.digest(data)) == root,
        tampered != data,
    ensures
        fold_steps(h, steps, h.digest(tampered)) != root || has_collision(h),
{
    if fold_steps(h, steps, h.digest(tampered)) == root {
        if h.digest(tampered) != h.digest(data) {
            lemma_fold_keeps_apart(h, steps, h.digest(tampered), h.digest(data));
        }
    }
}

/// Tamper sensitivity, a step of the proof: when the digest in one step
/// is replaced by another, the proof no longer leads to the same root,
/// unless the hash function has a collision.
pub proof fn lemma_tampered_step_rejected<H: Hasher>(
    h: &H,
    steps: Seq<StepModel>,
    at: int,
    tampered: Seq<u8>,
    leaf: Seq<u8>,
)
    requires
        0 <= at < steps.len(),
        tampered != steps[at].hash,
    ensures
        fold_steps(
            h,
            steps.update(at, StepModel { hash: tampered, direction: steps[at].direction }),
            leaf,
        ) != fold_steps(h, steps, leaf) || has_collision(h),
{
    let changed = steps.update(at, StepModel { hash: tampered, direction: steps[at].direction });
    if fold_steps(h, changed, leaf) == fold_steps(h, steps, leaf) {
        let before = steps.take(at);
        let after = steps.skip(at + 1);
        let below = fold_steps(h, before, leaf);
        assert(steps =~= before.push(steps[at]) + after);
        assert(changed =~= before.push(changed[at]) + after);
        lemma_fold_concat(h, before.push(steps[at]), after, leaf);
        lemma_fold_concat(h, before.push(changed[at]), after, leaf);
        assert(before.push(steps[at]).drop_last() =~= before);
        assert(before.push(changed[at]).drop_last() =~= before);
        let kept = climb(h, steps[at], below);
        let forged = climb(h, changed[at], below);
        assert(fold_steps(h, before.push(steps[at]), leaf) == kept);
        assert(fold_steps(h, before.push(changed[at]), leaf) == forged);
        if kept != forged {
            lemma_fold_keeps_apart(h, after, kept, forged);
        } else {
            match steps[at].direction {
                ProofDirection::Left => {
                    if tampered + below == steps[at].hash + below {
                        lemma_same_suffix_cancels(tampered, steps[at].hash, below);
                    }
                    assert(h.digest(tampered + below) == h.digest(steps[at].hash + below));
                },
                ProofDirection::Right => {
                    if below + tampered == below + steps[at].hash {
                        lemma_same_prefix_cancels(below, tampered, steps[at].hash);
                    }
                    assert(h.digest(below + tampered) == h.digest(below + steps[at].hash));
                },
            }
        }
    }
}

/// Whether two byte strings are the same.
pub(crate) fn bytes_equal(a: &[u8], b: &[u8]) -> (same: bool)
    ensures
        same == (a@ == b@),
{
    if a.len() != b.len() {
        return false;
    }
    let mut i: usize = 0;
    while i < a.len()
        invariant
            a@.len() == b@.len(),
            i <= a@.len(),
            forall|k: int| 0 <= k < i ==> a@[k] == b@[k],
        decreases a@.len() - i,
    {
        if a[i] != b[i] {
            return false;
        }
        i += 1;
    }
    assert(a@ =~= b@);
    true
}

impl MerkleProof {
    /// A proof for the leaf at `leaf_index` with the given steps.
    pub fn new(leaf_index: usize, steps: Vec<ProofStep>) -> (proof: Self)
        ensures
            proof.leaf_index == leaf_index,
            proof.steps == steps,
    {
        MerkleProof { leaf_index, steps }
    }

    /// The number of steps.
    pub fn len(&self) -> (n: usize)
        ensures
            n == self@.steps.len(),
    {
        self.steps.len()
    }

    /// Whether the proof has no steps, as the proof for the only leaf of a
    /// one-leaf tree does.
    pub fn is_empty(&self) -> (empty: bool)
        ensures
            empty == (self@.steps.len() == 0),
    {
        self.steps.len() == 0
    }

    /// The root that this proof leads to from the digest `leaf_hash`.
    pub fn compute_root<H: Hasher>(&self, hasher: &H, leaf_hash: &[u8]) -> (root: Vec<u8>)
        ensures
            root@ == fold_steps(hasher, self@.steps, leaf_hash@),
    {
        let mut current: Vec<u8> = slice_to_vec(leaf_hash);
        let mut i: usize = 0;
        while i < self.steps.len()
            invariant
                i <= self.steps.len(),
                current@ == fold_steps(hasher, self@.steps.take(i as int), leaf_hash@),
            decreases self.steps.len() - i,
        {
            let step = &self.steps[i];
            proof {
                let upto = self@.steps.take(i + 1);
                assert(upto.drop_last() =~= self@.steps.take(i as int));
                assert(upto.last() == step@);
            }
            current = match step.direction {
                ProofDirection::Left => hasher.hash_pair(step.hash.as_slice(), current.as_slice()),
                ProofDirection::Right => hasher.hash_pair(current.as_slice(), step.hash.as_slice()),
            };
            i += 1;
        }
        assert(self@.steps.take(i as int) =~= self@.steps);
        current
    }

    /// The proof as text, for logs and debugging.
    pub fn to_hex(&self) -> (text: String)
        ensures
            text@ == proof_text(self@),
    {
        let mut joined = String::from_str("");
        let mut i: usize = 0;
        proof {
            reveal_strlit("");
            assert(joined@ =~= steps_text(self@.steps.take(0)));
        }
        while i < self.steps.len()
            invariant
                i <= self.steps.len(),
                joined@ == steps_text(self@.steps.take(i as int)),
            decreases self.steps.len() - i,
        {
            let step = &self.steps[i];
            let ghost before = joined@;
            proof {
                let upto = self@.steps.take(i + 1);
                assert(upto.drop_last() =~= self@.steps.take(i as int));
                assert(upto.last() == step@);
                assert(upto[0] == self@.steps[0]);
            }
            if i > 0 {
                joined.append(", ");
            }
            match step.direction {
                ProofDirection::Left => joined.append("L"),
                ProofDirection::Right => joined.append("R"),
            }
            joined.append(":");
            let digest = hex_encode(step.hash.as_slice());
            joined.append(digest.as_str());
            proof {
                let sep = if i > 0 { ", "@ } else { Seq::<char>::empty() };
                assert(joined@ =~= before + sep + step_text(step@));
                if i == 0 {
                    assert(before =~= Seq::<char>::empty());
                    assert(joined@ =~= step_text(step@));
                }
            }
            i += 1;
        }
        assert(self@.steps.take(i as int) =~= self@.steps);
        let mut text = String::from_str("index:");
        let index = decimal_text(self.leaf_index);
        text.append(index.as_str());
        text.append(", steps:[");
        text.append(joined.as_str());
        text.append("]");
        text
    }

    /// Whether the proof leads from the digest `leaf_hash` to exactly `root`.
    pub fn verify_with_leaf_hash<H: Hasher>(&self, hasher: &H, leaf_hash: &[u8], root: &[u8]) -> (ok:
        bool)
        ensures
            ok == (fold_steps(hasher, self@.steps, leaf_hash@) == root@),
    {
        let computed = self.compute_root(hasher, leaf_hash);
        bytes_equal(computed.as_slice(), root)
    }

    /// Whether the proof leads from the digest of `leaf_data` to exactly
    /// `root`.
    pub fn verify<H: Hasher>(&self, hasher: &H, leaf_data: &[u8], root: &[u8]) -> (ok: bool)
        ensures
            ok == (fold_steps(hasher, self@.steps, hasher.digest(leaf_data@)) == root@),
    {
        let leaf_hash = hasher.hash(leaf_data);
        self.verify_with_leaf_hash(hasher, leaf_hash.as_slice(), root)
    }
}

} // verus!
