//! The Merkle tree itself: level construction with power-of-two padding,
//! proof generation, proof verification, and incremental single-element
//! insertion.

use vstd::prelude::*;
use vstd::pervasive::VecAdditionalExecFns;
use vstd::arithmetic::power2::pow2;
use vstd::arithmetic::power2::lemma_pow2_unfold;
use vstd::arithmetic::power2::lemma_pow2_pos;
use vstd::arithmetic::power2::lemma_pow2_strictly_increases;
use crate::hashing::{combine, combine_nodes, hash_of, hash_element};
use crate::padding::{next_pow2, lemma_next_pow2_bounds, extend_elements};

verus! {

/// The mathematical content of a vector of levels: each level as a sequence
/// of digests.
pub open spec fn views_of(levels_vec: Seq<Vec<u64>>) -> Seq<Seq<u64>> {
    levels_vec.map_values(|level: Vec<u64>| level@)
}

/// Structural well-formedness of a level sequence: at least one level, level
/// `i` holds exactly `2^(count - 1 - i)` digests (so the leaf level is a
/// power of two wide and the last level holds the single root), and every
/// entry above the leaves is the combined digest of its two children.
pub open spec fn levels_wf(levels: Seq<Seq<u64>>) -> bool {
    &&& levels.len() >= 1
    &&& forall|i: int|
        0 <= i < levels.len() ==> (#[trigger] levels[i]).len() == pow2(
            (levels.len() - 1 - i) as nat,
        )
    &&& forall|i: int, j: int|
        1 <= i < levels.len() && 0 <= j < levels[i].len() ==> #[trigger] levels[i][j] == combine(
            levels[i - 1][2 * j],
            levels[i - 1][2 * j + 1],
        )
}

/// The position of the sibling of the node at `index` within its level: the
/// right neighbour for an even index, the left neighbour for an odd one.
pub open spec fn sibling_index(index: int) -> int {
    if index % 2 == 0 {
        index + 1
    } else {
        index - 1
    }
}

/// The position of the ancestor of leaf `leaf_index` within level `k`: the
/// leaf position halved once per level climbed.
pub open spec fn path_index(leaf_index: int, k: int) -> int {
    leaf_index / (pow2(k as nat) as int)
}

/// The digest that a membership proof for leaf `leaf_index` carries at level
/// `k`: the sibling of the leaf's ancestor at that level.
pub open spec fn proof_entry(levels: Seq<Seq<u64>>, leaf_index: int, k: int) -> u64 {
    levels[k][sibling_index(path_index(leaf_index, k))]
}

/// The root digest reconstructed from a claimed leaf digest, its claimed
/// position, and a sequence of sibling digests: at each step the running
/// digest is combined with the next sibling — on the left when the running
/// position is even, on the right when it is odd — and the position is
/// halved.
pub open spec fn root_from(leaf: u64, index: int, siblings: Seq<u64>) -> u64
    decreases siblings.len(),
{
    if siblings.len() == 0 {
        leaf
    } else {
        let parent = if index % 2 == 0 {
            combine(leaf, siblings[0])
        } else {
            combine(siblings[0], leaf)
        };
        root_from(parent, index / 2, siblings.drop_first())
    }
}

/// An index below `2^h` keeps its quotient by `2^k` below `2^(h - k)`.
proof fn lemma_quotient_bound(x: int, k: nat, h: nat)
    requires
        0 <= x < pow2(h),
        k <= h,
    ensures
        x / (pow2(k) as int) < pow2((h - k) as nat),
{
    vstd::arithmetic::power2::lemma_pow2_adds(k, (h - k) as nat);
    lemma_pow2_pos(k);
    vstd::arithmetic::div_mod::lemma_multiply_divide_lt(x, pow2(k) as int, pow2((h - k) as nat) as int);
}

/// Halving the quotient by `2^k` gives the quotient by `2^(k + 1)`.
proof fn lemma_halve_quotient(x: int, k: nat)
    requires
        0 <= x,
    ensures
        (x / (pow2(k) as int)) / 2 == x / (pow2((k + 1) as nat) as int),
{
    lemma_pow2_pos(k);
    vstd::arithmetic::div_mod::lemma_div_denominator(x, pow2(k) as int, 2);
    lemma_pow2_unfold((k + 1) as nat);
}

/// Two well-formed level sequences of the same height, laid side by side
/// level by level and topped with the combined digest of their two roots,
/// form one well-formed level sequence: every parent-child relation of both
/// halves is kept, and the new top combines the two old tops.
proof fn lemma_merged_levels_wf(olv: Seq<Seq<u64>>, slv: Seq<Seq<u64>>, flv: Seq<Seq<u64>>)
    requires
        levels_wf(olv),
        levels_wf(slv),
        slv.len() == olv.len(),
        flv.len() == olv.len() + 1,
        forall|t: int| 0 <= t < olv.len() ==> #[trigger] flv[t] == olv[t] + slv[t],
        flv[olv.len() as int] == (seq![combine(olv[olv.len() - 1][0], slv[slv.len() - 1][0])]),
    ensures
        levels_wf(flv),
{
    let count = olv.len() as int;
    let h = (count - 1) as nat;
    assert(pow2(0) == 1) by {
        vstd::arithmetic::power2::lemma2_to64();
    }
    assert forall|t: int| 0 <= t < flv.len() implies (#[trigger] flv[t]).len() == pow2(
        (flv.len() - 1 - t) as nat,
    ) by {
        if t < count {
            assert(olv[t].len() == pow2((h - t) as nat));
            assert(slv[t].len() == pow2((h - t) as nat));
            lemma_pow2_unfold((h - t + 1) as nat);
        }
    }
    assert forall|t: int, j: int|
        1 <= t < flv.len() && 0 <= j < flv[t].len() implies #[trigger] flv[t][j] == combine(
        flv[t - 1][2 * j],
        flv[t - 1][2 * j + 1],
    ) by {
        assert(flv[t - 1] == olv[t - 1] + slv[t - 1]);
        assert(olv[t - 1].len() == pow2((h - (t - 1)) as nat));
        assert(slv[t - 1].len() == pow2((h - (t - 1)) as nat));
        if t == count {
            assert(flv[t].len() == pow2(0));
            assert(j == 0);
            assert(olv[t - 1].len() == pow2(0));
            assert(flv[t][0] == combine(olv[t - 1][0], slv[t - 1][0]));
            assert(flv[t - 1][0] == olv[t - 1][0]);
            assert(flv[t - 1][1] == slv[t - 1][0]);
        } else {
            lemma_pow2_unfold((h - t + 1) as nat);
            let half = pow2((h - t) as nat) as int;
            assert(flv[t] == olv[t] + slv[t]);
            assert(olv[t].len() == half);
            assert(slv[t].len() == half);
            assert(olv[t - 1].len() == 2 * half);
            assert(slv[t - 1].len() == 2 * half);
            if j < half {
                assert(flv[t][j] == olv[t][j]);
                assert(olv[t][j] == combine(olv[t - 1][2 * j], olv[t - 1][2 * j + 1]));
                assert(flv[t - 1][2 * j] == olv[t - 1][2 * j]);
                assert(flv[t - 1][2 * j + 1] == olv[t - 1][2 * j + 1]);
            } else {
                let js = j - half;
                assert(flv[t][j] == slv[t][js]);
                assert(slv[t][js] == combine(slv[t - 1][2 * js], slv[t - 1][2 * js + 1]));
                assert(flv[t - 1][2 * j] == slv[t - 1][2 * j - 2 * half]);
                assert(flv[t - 1][2 * j + 1] == slv[t - 1][2 * j + 1 - 2 * half]);
            }
        }
    }
}

/// Climbing one level at a time: reconstruction that starts from the leaf's
/// ancestor at level `k` and consumes the remaining sibling digests of a
/// generated proof ends at the root.
proof fn lemma_climb(levels: Seq<Seq<u64>>, leaf_index: int, siblings: Seq<u64>, k: int)
    requires
        levels_wf(levels),
        0 <= leaf_index < levels[0].len(),
        siblings.len() == levels.len() - 1,
        forall|k2: int|
            0 <= k2 < siblings.len() ==> siblings[k2] == proof_entry(levels, leaf_index, k2),
        0 <= k <= siblings.len(),
    ensures
        root_from(
            levels[k][leaf_index / (pow2(k as nat) as int)],
            leaf_index / (pow2(k as nat) as int),
            siblings.skip(k),
        ) == levels.last()[0],
    decreases siblings.len() - k,
{
    let h = siblings.len() as int;
    let idx = leaf_index / (pow2(k as nat) as int);
    assert(levels[0].len() == pow2(h as nat));
    lemma_quotient_bound(leaf_index, k as nat, h as nat);
    assert(levels[k].len() == pow2((h - k) as nat));
    lemma_pow2_pos(k as nat);
    vstd::arithmetic::div_mod::lemma_div_pos_is_pos(leaf_index, pow2(k as nat) as int);
    if k == h {
        assert(siblings.skip(k) =~= Seq::<u64>::empty());
        assert(pow2(0) == 1) by {
            vstd::arithmetic::power2::lemma2_to64();
        }
        assert(idx == 0);
        assert(levels.last() == levels[h]);
    } else {
        let s = siblings.skip(k);
        assert(s[0] == siblings[k]);
        assert(siblings[k] == proof_entry(levels, leaf_index, k));
        lemma_pow2_unfold((h - k) as nat);
        let parent_index = idx / 2;
        assert(levels[k + 1].len() == pow2((h - (k + 1)) as nat));
        assert(levels[k + 1][parent_index] == combine(
            levels[k][2 * parent_index],
            levels[k][2 * parent_index + 1],
        ));
        if idx % 2 == 0 {
            assert(2 * parent_index == idx);
        } else {
            assert(2 * parent_index == idx - 1);
        }
        assert(root_from(levels[k][idx], idx, s) == root_from(
            levels[k + 1][parent_index],
            idx / 2,
            s.drop_first(),
        ));
        lemma_halve_quotient(leaf_index, k as nat);
        assert(s.drop_first() =~= siblings.skip(k + 1));
        lemma_climb(levels, leaf_index, siblings, k + 1);
    }
}

/// Round-trip law: on a well-formed tree, for any position that refers to a
/// real element, the sibling digests that proof generation returns (one
/// `proof_entry` per level below the root) reconstruct exactly the root of
/// the tree — so verification of a freshly generated proof, with the leaf
/// digest the tree itself holds at that position, always succeeds.
pub proof fn lemma_round_trip(tree: &MerkleTree, proof_hashes: Seq<u64>, leaf_index: int)
    requires
        tree.wf(),
        0 <= leaf_index < tree.diff(),
        proof_hashes.len() == tree.levels().len() - 1,
        forall|k: int|
            0 <= k < proof_hashes.len() ==> proof_hashes[k] == proof_entry(
                tree.levels(),
                leaf_index,
                k,
            ),
    ensures
        root_from(tree.levels()[0][leaf_index], leaf_index, proof_hashes) == tree.root(),
{
    assert(pow2(0) == 1) by {
        vstd::arithmetic::power2::lemma2_to64();
    }
    vstd::arithmetic::div_mod::lemma_div_basics(leaf_index);
    lemma_climb(tree.levels(), leaf_index, proof_hashes, 0);
    assert(proof_hashes.skip(0) =~= proof_hashes);
}

/// A Merkle hash tree over string elements.
///
/// The tree is an ordered sequence of levels; level 0 holds the element
/// digests (padded to a power-of-two width with copies of real digests) and
/// the last level holds the single root digest. `diff_elements` counts the
/// real, caller-supplied elements; leaf positions at and beyond it hold
/// padding only.
pub struct MerkleTree {
    arr: Vec<Vec<u64>>,
    diff_elements: usize,
}

/// Hashes every element, after padding the element sequence to the next
/// power-of-two width with copies of the trailing elements. The result is the
/// leaf level of the tree.
fn create_first_level(elements: Vec<&str>) -> (hashed: Vec<u64>)
    requires
        1 <= elements.len(),
        elements.len() <= usize::MAX / 2 + 1,
    ensures
        hashed@.len() == next_pow2(elements@.len()),
        forall|j: int| 0 <= j < elements@.len() ==> hashed@[j] == hash_of(elements@[j]@),
        forall|j: int|
            elements@.len() <= j < hashed@.len() ==> hashed@[j] == hash_of(
                elements@[j - (hashed@.len() - elements@.len())]@,
            ),
{
    let ghost originals = elements@;
    let mut elements = elements;
    extend_elements(&mut elements);
    let mut hashed: Vec<u64> = Vec::new();
    let mut i: usize = 0;
    while i < elements.len()
        invariant
            i <= elements@.len(),
            hashed@.len() == i,
            forall|j: int| 0 <= j < i ==> hashed@[j] == hash_of(elements@[j]@),
        decreases elements.len() - i,
    {
        let digest = hash_element(elements[i]);
        hashed.push(digest);
        i = i + 1;
    }
    proof {
        assert(forall|j: int|
            0 <= j < originals.len() ==> elements@[j] == originals[j]);
    }
    hashed
}

/// Folds one level into the next: adjacent digests are paired left to right
/// and each pair is combined into one parent digest.
fn create_next_level(level: &Vec<u64>) -> (next: Vec<u64>)
    requires
        level@.len() >= 2,
        level@.len() % 2 == 0,
    ensures
        next@.len() == level@.len() / 2,
        forall|j: int|
            0 <= j < next@.len() ==> next@[j] == combine(level@[2 * j], level@[2 * j + 1]),
{
    let mut next: Vec<u64> = Vec::new();
    let half = level.len() / 2;
    let mut j: usize = 0;
    while j < half
        invariant
            half == level@.len() / 2,
            level@.len() % 2 == 0,
            level@.len() <= usize::MAX,
            j <= half,
            next@.len() == j,
            forall|k: int|
                0 <= k < j ==> next@[k] == combine(level@[2 * k], level@[2 * k + 1]),
        decreases half - j,
    {
        let parent = combine_nodes(level[2 * j], level[2 * j + 1]);
        next.push(parent);
        j = j + 1;
    }
    next
}

/// Uses the leaf level to create all remaining levels, each by folding the
/// one before it, until a level of length one — the root — is produced.
fn create_remaining_levels(hashed_elements: Vec<u64>) -> (tree_structure: Vec<Vec<u64>>)
    requires
        exists|e: nat| hashed_elements@.len() == pow2(e),
    ensures
        levels_wf(views_of(tree_structure@)),
        views_of(tree_structure@)[0] == hashed_elements@,
        pow2((views_of(tree_structure@).len() - 1) as nat) == hashed_elements@.len(),
{
    let ghost leaves = hashed_elements@;
    let ghost e = choose|e: nat| leaves.len() == pow2(e);
    proof {
        lemma_pow2_pos(e);
    }
    let mut tree_structure: Vec<Vec<u64>> = Vec::new();
    let mut width = hashed_elements.len();
    tree_structure.push(hashed_elements);
    while width > 1
        invariant
            1 <= tree_structure@.len() <= e + 1,
            views_of(tree_structure@)[0] == leaves,
            forall|i: int|
                0 <= i < tree_structure@.len() ==> (#[trigger] views_of(tree_structure@)[i]).len()
                    == pow2((e - i) as nat),
            forall|i: int, j: int|
                1 <= i < tree_structure@.len() && 0 <= j < views_of(tree_structure@)[i].len()
                    ==> #[trigger] views_of(tree_structure@)[i][j] == combine(
                    views_of(tree_structure@)[i - 1][2 * j],
                    views_of(tree_structure@)[i - 1][2 * j + 1],
                ),
            width == views_of(tree_structure@).last().len(),
        decreases width,
    {
        let ghost pre = tree_structure@;
        let ghost top = pre.len() - 1;
        proof {
            assert(views_of(pre)[top].len() == pow2((e - top) as nat));
            if e - top == 0 {
                assert(pow2(0) == 1) by {
                    vstd::arithmetic::power2::lemma2_to64();
                }
                assert(false);
            }
            lemma_pow2_unfold((e - top) as nat);
        }
        let last_index = tree_structure.len() - 1;
        let next = create_next_level(&tree_structure[last_index]);
        width = next.len();
        tree_structure.push(next);
        proof {
            let lv = views_of(tree_structure@);
            let pre_lv = views_of(pre);
            assert(tree_structure@ == pre.push(next));
            assert(lv[0] == pre_lv[0]);
            assert forall|i: int| 0 <= i < lv.len() implies (#[trigger] lv[i]).len() == pow2(
                (e - i) as nat,
            ) by {
                if i < pre.len() {
                    assert(lv[i] == pre_lv[i]);
                } else {
                    assert(lv[i] == next@);
                    assert(next@.len() == pre_lv[top].len() / 2);
                }
            }
            assert forall|i: int, j: int|
                1 <= i < lv.len() && 0 <= j < lv[i].len() implies #[trigger] lv[i][j] == combine(
                lv[i - 1][2 * j],
                lv[i - 1][2 * j + 1],
            ) by {
                if i < pre.len() {
                    assert(lv[i] == pre_lv[i]);
                    assert(lv[i - 1] == pre_lv[i - 1]);
                    assert(pre_lv[i][j] == combine(pre_lv[i - 1][2 * j], pre_lv[i - 1][2 * j + 1]));
                } else {
                    assert(lv[i] == next@);
                    assert(lv[i - 1] == pre_lv[top]);
                    assert(next@[j] == combine(pre_lv[top][2 * j], pre_lv[top][2 * j + 1]));
                }
            }
        }
    }
    proof {
        let lv = views_of(tree_structure@);
        let count = lv.len() as int;
        assert(lv.last() == lv[count - 1]);
        assert(lv[count - 1].len() == pow2((e - (count - 1)) as nat));
        lemma_pow2_pos((e - (count - 1)) as nat);
        assert(pow2((e - (count - 1)) as nat) == 1);
        if e > count - 1 {
            lemma_pow2_strictly_increases(0, (e - (count - 1)) as nat);
            assert(pow2(0) == 1) by {
                vstd::arithmetic::power2::lemma2_to64();
            }
            assert(false);
        }
        assert(e == count - 1);
    }
    tree_structure
}

impl MerkleTree {
    /// The levels of the tree, leaves first, root level last.
    pub closed spec fn levels(&self) -> Seq<Seq<u64>> {
        views_of(self.arr@)
    }

    /// The number of real (non-padding) elements represented.
    pub closed spec fn diff(&self) -> nat {
        self.diff_elements as nat
    }

    /// The width of the leaf level.
    pub open spec fn width(&self) -> nat {
        self.levels()[0].len()
    }

    /// The root digest: the sole entry of the last level.
    pub open spec fn root(&self) -> u64 {
        self.levels().last()[0]
    }

    /// Well-formedness: the levels are structurally sound, and the real
    /// element count lies in `[1, width]` with the padding filling strictly
    /// less than half of the leaf level.
    pub open spec fn wf(&self) -> bool {
        &&& levels_wf(self.levels())
        &&& 1 <= self.diff() <= self.width()
        &&& self.width() < 2 * self.diff()
    }

    /// Creates a new Merkle tree from a non-empty element sequence.
    ///
    /// Level 0 holds one digest per element, in order, padded to the next
    /// power-of-two width with a copy of the digests of the trailing
    /// elements; every further level combines adjacent pairs of the level
    /// below, down to the single root. The empty sequence is invalid input
    /// and is excluded by precondition; the length bound keeps the padded
    /// width within `usize`.
    pub fn new(elements: Vec<&str>) -> (tree: Self)
        requires
            1 <= elements.len(),
            elements.len() <= usize::MAX / 2 + 1,
        ensures
            tree.wf(),
            tree.diff() == elements@.len(),
            tree.width() == next_pow2(elements@.len()),
            pow2((tree.levels().len() - 1) as nat) == tree.width(),
            forall|j: int| 0 <= j < elements@.len() ==> tree.levels()[0][j] == hash_of(elements@[j]@),
            forall|j: int|
                elements@.len() <= j < tree.width() ==> tree.levels()[0][j] == hash_of(
                    elements@[j - (tree.width() - elements@.len())]@,
                ),
    {
        let elements_len = elements.len();
        proof {
            lemma_next_pow2_bounds(elements_len as nat);
        }
        let hashed_elements = create_first_level(elements);
        let arr = create_remaining_levels(hashed_elements);
        Self { arr, diff_elements: elements_len }
    }

    /// The number of levels.
    pub fn level_count(&self) -> (count: usize)
        ensures
            count == self.levels().len(),
    {
        self.arr.len()
    }

    /// A copy of level `index` (0 is the leaf level).
    pub fn level(&self, index: usize) -> (level: Vec<u64>)
        requires
            index < self.levels().len(),
        ensures
            level@ == self.levels()[index as int],
    {
        let level = self.arr[index].clone();
        proof {
            assert(level@ =~= self.levels()[index as int]);
        }
        level
    }

    /// The number of real elements represented.
    pub fn element_count(&self) -> (count: usize)
        ensures
            count == self.diff(),
    {
        self.diff_elements
    }

    /// Checks whether the received digest equals the root of the tree.
    /// Defensive on malformed shapes: an empty tree or an empty last level
    /// matches nothing.
    pub fn is_root(&self, hash_to_check: u64) -> (matches_root: bool)
        ensures
            matches_root == (self.levels().len() > 0 && self.levels().last().len() > 0
                && hash_to_check == self.levels().last().last()),
    {
        if self.arr.len() == 0 {
            return false;
        }
        let root_level = &self.arr[self.arr.len() - 1];
        if root_level.len() == 0 {
            return false;
        }
        root_level[root_level.len() - 1] == hash_to_check
    }

    /// Generates the membership proof for the leaf at `hash_index`: one
    /// sibling digest per level below the root, bottom up. Returns
    /// `IndexOutOfRange` (as an error string) if and only if the index does
    /// not refer to a real element.
    pub fn generate_proof(&self, hash_index: usize) -> (result: Result<Vec<u64>, String>)
        requires
            self.wf(),
        ensures
            match result {
                Ok(proof_hashes) => {
                    &&& hash_index < self.diff()
                    &&& proof_hashes@.len() == self.levels().len() - 1
                    &&& forall|k: int|
                        0 <= k < proof_hashes@.len() ==> proof_hashes@[k] == proof_entry(
                            self.levels(),
                            hash_index as int,
                            k,
                        )
                },
                Err(message) => {
                    &&& hash_index >= self.diff()
                    &&& message@ == "Invalid index"@
                },
            },
    {
        if hash_index >= self.diff_elements {
            return Err("Invalid index".to_owned());
        }
        let ghost leaf_index = hash_index as int;
        let ghost height = (self.levels().len() - 1) as nat;
        let mut hash_index = hash_index;
        let mut proof_hashes: Vec<u64> = Vec::new();
        let level_count = self.arr.len();
        let mut i: usize = 0;
        proof {
            assert(self.levels()[0].len() == pow2(height));
            assert(pow2(0) == 1) by {
                vstd::arithmetic::power2::lemma2_to64();
            }
        }
        while i < level_count - 1
            invariant
                self.wf(),
                level_count == self.levels().len(),
                height == level_count - 1,
                0 <= leaf_index < pow2(height),
                i <= height,
                proof_hashes@.len() == i,
                hash_index as int == leaf_index / (pow2(i as nat) as int),
                forall|k: int|
                    0 <= k < i ==> proof_hashes@[k] == proof_entry(self.levels(), leaf_index, k),
            decreases level_count - i,
        {
            proof {
                lemma_quotient_bound(leaf_index, i as nat, height);
                assert(self.levels()[i as int].len() == pow2((height - i) as nat));
                lemma_pow2_unfold((height - i) as nat);
            }
            let level = &self.arr[i];
            let proof_hash = if hash_index % 2 == 0 {
                level[hash_index + 1]
            } else {
                level[hash_index - 1]
            };
            proof_hashes.push(proof_hash);
            proof {
                assert(proof_hashes@[i as int] == proof_entry(self.levels(), leaf_index, i as int));
                lemma_halve_quotient(leaf_index, i as nat);
            }
            hash_index = hash_index / 2;
            i = i + 1;
        }
        Ok(proof_hashes)
    }

    /// Grows the leaf level for an insertion into a full tree: appends the
    /// new element's digest and pads the level back to a power-of-two width —
    /// now doubled — with further copies of that same digest, counting the
    /// new element. The levels above are not touched here.
    fn create_new_base_level(&mut self, new_elem: &str)
        requires
            old(self).wf(),
            old(self).diff() == old(self).width(),
            2 * old(self).width() <= usize::MAX,
        ensures
            final(self).diff() == old(self).diff() + 1,
            final(self).levels().len() == old(self).levels().len(),
            forall|i: int|
                1 <= i < final(self).levels().len() ==> final(self).levels()[i] == old(
                    self,
                ).levels()[i],
            final(self).levels()[0].len() == 2 * old(self).width(),
            old(self).levels()[0].is_prefix_of(final(self).levels()[0]),
            forall|j: int|
                old(self).width() <= j < 2 * old(self).width() ==> final(self).levels()[0][j]
                    == hash_of(new_elem@),
    {
        let ghost olv = self.levels();
        let ghost count = olv.len() as int;
        let new_hash = hash_element(new_elem);
        let w = self.arr[0].len();
        proof {
            assert(self.levels()[0] == self.arr@[0]@);
        }
        self.diff_elements = self.diff_elements + 1;
        let ghost pre_arr = self.arr@;
        let mut level0 = self.arr.remove(0);
        let ghost base = level0@;
        let mut k: usize = 0;
        while k < w
            invariant
                w + w <= usize::MAX,
                k <= w,
                base.len() == w,
                new_hash == hash_of(new_elem@),
                level0@.len() == w + k,
                base.is_prefix_of(level0@),
                forall|j: int| w <= j < w + k ==> level0@[j] == new_hash,
            decreases w - k,
        {
            level0.push(new_hash);
            k = k + 1;
        }
        self.arr.insert(0, level0);
        proof {
            assert(self.arr@.len() == count);
            assert(self.levels()[0] == level0@);
            assert forall|i: int| 1 <= i < count implies self.levels()[i] == olv[i] by {
                assert(self.arr@[i] == pre_arr[i]);
            }
        }
    }

    /// Consumes one padding slot: overwrites the first padding position
    /// (position `diff`) in the leaf level with `new_hash`, counts the new
    /// element, and repairs every ancestor on the path from that slot up to
    /// and including the root. No level changes length, and no position off
    /// the repaired path changes.
    fn replace_repeated_value(&mut self, new_hash: u64)
        requires
            old(self).wf(),
            old(self).diff() < old(self).width(),
        ensures
            final(self).wf(),
            final(self).diff() == old(self).diff() + 1,
            final(self).levels().len() == old(self).levels().len(),
            forall|i: int|
                0 <= i < final(self).levels().len() ==> (#[trigger] final(self).levels()[i]).len()
                    == old(self).levels()[i].len(),
            final(self).levels()[0][old(self).diff() as int] == new_hash,
            forall|i: int, j: int|
                0 <= i < final(self).levels().len() && 0 <= j < final(self).levels()[i].len() && j
                    != path_index(old(self).diff() as int, i) ==> final(self).levels()[i][j] == old(
                    self,
                ).levels()[i][j],
    {
        let ghost olv = self.levels();
        let ghost count = olv.len() as int;
        let ghost h = (count - 1) as nat;
        let ghost d0 = self.diff_elements as int;
        let ghost first_hash = new_hash;
        let width0 = self.arr[0].len();
        proof {
            assert(self.levels()[0] == self.arr@[0]@);
            assert(self.diff_elements < width0);
        }
        let mut index = self.diff_elements;
        self.diff_elements = self.diff_elements + 1;
        let mut new_hash = new_hash;
        let mut i: usize = 0;
        proof {
            assert(pow2(0) == 1) by {
                vstd::arithmetic::power2::lemma2_to64();
            }
            vstd::arithmetic::div_mod::lemma_div_basics(d0);
            assert(olv[0].len() == pow2(h));
        }
        while i < self.arr.len()
            invariant
                levels_wf(olv),
                count == olv.len(),
                h == count - 1,
                self.arr@.len() == count,
                self.diff_elements == d0 + 1,
                d0 + 1 <= usize::MAX,
                0 <= d0 < pow2(h),
                path_index(d0, 0) == d0,
                i <= count,
                i < count ==> index as int == path_index(d0, i as int),
                forall|t: int| i <= t < count ==> self.levels()[t] == olv[t],
                forall|t: int|
                    0 <= t < count ==> (#[trigger] self.levels()[t]).len() == olv[t].len(),
                forall|t: int, j: int|
                    0 <= t < i && 0 <= j < self.levels()[t].len() && j != path_index(d0, t)
                        ==> self.levels()[t][j] == olv[t][j],
                i >= 1 ==> self.levels()[0][d0] == first_hash,
                forall|t: int|
                    1 <= t < i ==> #[trigger] self.levels()[t][path_index(d0, t)] == combine(
                        self.levels()[t - 1][2 * path_index(d0, t)],
                        self.levels()[t - 1][2 * path_index(d0, t) + 1],
                    ),
                i < count && i == 0 ==> new_hash == first_hash,
                i < count && i >= 1 ==> new_hash == combine(
                    self.levels()[i - 1][2 * path_index(d0, i as int)],
                    self.levels()[i - 1][2 * path_index(d0, i as int) + 1],
                ),
            decreases count - i,
        {
            let ghost before = self.levels();
            let ghost index0 = index as int;
            let ghost carried = new_hash;
            proof {
                lemma_quotient_bound(d0, i as nat, h);
                assert(before[i as int].len() == olv[i as int].len());
                assert(olv[i as int].len() == pow2((h - i) as nat));
            }
            let mut updated = self.arr[i].clone();
            proof {
                assert(updated@ =~= before[i as int]);
            }
            updated.set(index, new_hash);
            self.arr.set(i, updated);
            proof {
                assert forall|t: int| 0 <= t < count && t != i implies self.levels()[t]
                    == before[t] by {
                    assert(self.levels()[t] == self.arr@[t]@);
                }
                assert(self.levels()[i as int] == before[i as int].update(index0, carried));
            }
            if i + 1 < self.arr.len() {
                proof {
                    if h - i == 0 {
                        assert(false);
                    }
                    lemma_pow2_unfold((h - i) as nat);
                    lemma_halve_quotient(d0, i as nat);
                }
                let left: u64;
                let right: u64;
                if index % 2 == 0 {
                    left = self.arr[i][index];
                    right = self.arr[i][index + 1];
                } else {
                    right = self.arr[i][index];
                    left = self.arr[i][index - 1];
                }
                new_hash = combine_nodes(left, right);
                index = index / 2;
            } else {
                proof {
                    lemma_halve_quotient(d0, i as nat);
                }
                index = index / 2;
            }
            proof {
                let lv = self.levels();
                assert forall|t: int| 0 <= t < count implies (#[trigger] lv[t]).len()
                    == olv[t].len() by {
                    if t == i {
                        assert(lv[t] == before[t].update(index0, carried));
                    } else {
                        assert(lv[t] == before[t]);
                    }
                }
                assert(lv[i as int][index0] == carried);
                assert forall|t: int|
                    1 <= t < i + 1 implies #[trigger] lv[t][path_index(d0, t)] == combine(
                    lv[t - 1][2 * path_index(d0, t)],
                    lv[t - 1][2 * path_index(d0, t) + 1],
                ) by {
                    if t < i {
                        assert(lv[t] == before[t]);
                        assert(lv[t - 1] == before[t - 1]);
                        assert(before[t][path_index(d0, t)] == combine(
                            before[t - 1][2 * path_index(d0, t)],
                            before[t - 1][2 * path_index(d0, t) + 1],
                        ));
                    } else {
                        assert(lv[t - 1] == before[t - 1]);
                        assert(lv[t][path_index(d0, t)] == carried);
                        if t >= 1 {
                            assert(carried == combine(
                                before[t - 1][2 * path_index(d0, t)],
                                before[t - 1][2 * path_index(d0, t) + 1],
                            ));
                        }
                    }
                }
            }
            i = i + 1;
        }
        proof {
            let flv = self.levels();
            assert forall|t: int, j: int|
                1 <= t < count && 0 <= j < flv[t].len() implies #[trigger] flv[t][j] == combine(
                flv[t - 1][2 * j],
                flv[t - 1][2 * j + 1],
            ) by {
                lemma_quotient_bound(d0, (t - 1) as nat, h);
                lemma_halve_quotient(d0, (t - 1) as nat);
                lemma_pow2_unfold((h - (t - 1)) as nat);
                assert(olv[t - 1].len() == pow2((h - (t - 1)) as nat));
                if j == path_index(d0, t) {
                    assert(flv[t][path_index(d0, t)] == combine(
                        flv[t - 1][2 * path_index(d0, t)],
                        flv[t - 1][2 * path_index(d0, t) + 1],
                    ));
                } else {
                    assert(olv[t][j] == combine(olv[t - 1][2 * j], olv[t - 1][2 * j + 1]));
                    assert(2 * j != path_index(d0, t - 1) && 2 * j + 1 != path_index(d0, t - 1))
                        by {
                        if 2 * j == path_index(d0, t - 1) || 2 * j + 1 == path_index(d0, t - 1) {
                            assert(path_index(d0, t) == path_index(d0, t - 1) / 2);
                            assert(false);
                        }
                    }
                    assert(flv[t - 1][2 * j] == olv[t - 1][2 * j]);
                    assert(flv[t - 1][2 * j + 1] == olv[t - 1][2 * j + 1]);
                }
            }
        }
    }

    /// Adds an element to the tree. Exactly one of two cases applies.
    ///
    /// When the leaf level is full of real elements (`diff == width`), the
    /// new element starts a parallel subtree of the same width: its digest
    /// fills the leaf slots `[width, 2 * width)`, every level above gains the
    /// corresponding level of the subtree built over those slots, and a new
    /// root level combining the old root with the subtree root is pushed —
    /// the width doubles and the tree gains one level.
    ///
    /// Otherwise padding is present, and the first padding slot (position
    /// `diff`) is overwritten with the new element's digest; only the
    /// ancestors of that slot are recomputed, and the shape of the tree does
    /// not change.
    ///
    /// Existing real elements are never removed or reordered; the real
    /// element count always grows by exactly one.
    pub fn add_element(&mut self, new_elem: &str)
        requires
            old(self).wf(),
            old(self).diff() == old(self).width() ==> 2 * old(self).width() <= usize::MAX,
        ensures
            final(self).wf(),
            final(self).diff() == old(self).diff() + 1,
            final(self).levels()[0][old(self).diff() as int] == hash_of(new_elem@),
            old(self).diff() == old(self).width() ==> {
                &&& final(self).levels().len() == old(self).levels().len() + 1
                &&& final(self).width() == 2 * old(self).width()
                &&& forall|i: int|
                    0 <= i < old(self).levels().len() ==> (#[trigger] old(self).levels()[i]).is_prefix_of(
                        final(self).levels()[i],
                    )
                &&& forall|j: int|
                    old(self).width() <= j < final(self).width() ==> final(self).levels()[0][j]
                        == hash_of(new_elem@)
            },
            old(self).diff() < old(self).width() ==> {
                &&& final(self).levels().len() == old(self).levels().len()
                &&& forall|i: int|
                    0 <= i < final(self).levels().len() ==> (#[trigger] final(self).levels()[i]).len()
                        == old(self).levels()[i].len()
                &&& forall|i: int, j: int|
                    0 <= i < final(self).levels().len() && 0 <= j < final(self).levels()[i].len()
                        && j != path_index(old(self).diff() as int, i)
                        ==> final(self).levels()[i][j] == old(self).levels()[i][j]
            },
    {
        proof {
            assert(self.levels()[0] == self.arr@[0]@);
        }
        let curr_base_len = self.diff_elements;
        if curr_base_len == self.arr[0].len() {
            let ghost olv = self.levels();
            let ghost count = olv.len() as int;
            let ghost h = (count - 1) as nat;
            let ghost w = olv[0].len() as int;
            proof {
                assert(olv[0].len() == pow2(h));
                lemma_pow2_pos(h);
            }
            self.create_new_base_level(new_elem);
            let ghost mlv = self.levels();
            let mut new_base_section: Vec<u64> = Vec::new();
            let mut k: usize = 0;
            while k < curr_base_len
                invariant
                    curr_base_len == w,
                    2 * w <= usize::MAX,
                    self.levels() == mlv,
                    self.arr@.len() == count,
                    1 <= count == mlv.len(),
                    mlv[0].len() == 2 * w,
                    forall|j: int| w <= j < 2 * w ==> mlv[0][j] == hash_of(new_elem@),
                    k <= w,
                    new_base_section@.len() == k,
                    forall|j: int| 0 <= j < k ==> new_base_section@[j] == hash_of(new_elem@),
                decreases w - k,
            {
                proof {
                    assert(self.levels()[0] == self.arr@[0]@);
                }
                let entry = self.arr[0][curr_base_len + k];
                new_base_section.push(entry);
                k = k + 1;
            }
            let ghost section = new_base_section@;
            proof {
                assert(section.len() == pow2(h));
            }
            let subtree = create_remaining_levels(new_base_section);
            let ghost slv = views_of(subtree@);
            proof {
                assert(pow2((slv.len() - 1) as nat) == pow2(h));
                if slv.len() - 1 < h {
                    lemma_pow2_strictly_increases((slv.len() - 1) as nat, h);
                    assert(false);
                }
                if slv.len() - 1 > h {
                    lemma_pow2_strictly_increases(h, (slv.len() - 1) as nat);
                    assert(false);
                }
                assert(slv.len() == count);
                // the leaf level of the subtree is the new section, so the
                // main leaf level is the old one followed by it
                assert(mlv[0] =~= olv[0] + slv[0]);
                assert(forall|t: int|
                    0 <= t < count ==> (#[trigger] olv[t]).len() == pow2((h - t) as nat));
                assert(forall|t: int|
                    0 <= t < count ==> (#[trigger] slv[t]).len() == pow2((h - t) as nat));
            }
            let mut i: usize = 1;
            while i < self.arr.len()
                invariant
                    self.arr@.len() == count,
                    subtree@.len() == count,
                    slv == views_of(subtree@),
                    count == olv.len(),
                    h == count - 1,
                    1 <= w,
                    2 * w <= usize::MAX,
                    self.diff_elements == w + 1,
                    1 <= i <= count,
                    self.levels()[0] == olv[0] + slv[0],
                    forall|t: int|
                        1 <= t < i ==> #[trigger] self.levels()[t] == olv[t] + slv[t],
                    forall|t: int| i <= t < count ==> #[trigger] self.levels()[t] == olv[t],
                decreases count - i,
            {
                let ghost before = self.levels();
                proof {
                    assert forall|t: int| 0 <= t < count implies before[t] == self.arr@[t]@ by {
                        assert(self.levels()[t] == self.arr@[t]@);
                    }
                    assert(before[i as int] == olv[i as int]) by {
                        assert(self.levels()[i as int] == olv[i as int]);
                    }
                    assert forall|t: int| i + 1 <= t < count implies before[t] == olv[t] by {
                        assert(self.levels()[t] == olv[t]);
                    }
                    assert forall|t: int| 1 <= t < i implies before[t] == olv[t] + slv[t] by {
                        assert(self.levels()[t] == olv[t] + slv[t]);
                    }
                    assert(before[0] == olv[0] + slv[0]);
                }
                let mut combined = self.arr[i].clone();
                proof {
                    assert(combined@ =~= before[i as int]);
                    assert(views_of(subtree@)[i as int] == subtree@[i as int]@);
                }
                let sub_level_len = subtree[i].len();
                let mut j: usize = 0;
                while j < sub_level_len
                    invariant
                        0 <= i < subtree@.len(),
                        sub_level_len == subtree@[i as int]@.len(),
                        j <= sub_level_len,
                        combined@ == before[i as int] + subtree@[i as int]@.take(j as int),
                    decreases sub_level_len - j,
                {
                    let entry = subtree[i][j];
                    combined.push(entry);
                    proof {
                        assert(combined@ =~= before[i as int] + subtree@[i as int]@.take(
                            j as int + 1,
                        ));
                    }
                    j = j + 1;
                }
                proof {
                    assert(subtree@[i as int]@.take(sub_level_len as int) =~= slv[i as int]);
                }
                self.arr.set(i, combined);
                proof {
                    assert forall|t: int| 0 <= t < count && t != i implies self.levels()[t]
                        == before[t] by {
                        assert(self.levels()[t] == self.arr@[t]@);
                    }
                    assert(self.levels()[i as int] == olv[i as int] + slv[i as int]);
                    assert forall|t: int| 1 <= t < i + 1 implies #[trigger] self.levels()[t]
                        == olv[t] + slv[t] by {
                        if t != i {
                            assert(self.levels()[t] == before[t]);
                        }
                    }
                    assert forall|t: int| i + 1 <= t < count implies #[trigger] self.levels()[t]
                        == olv[t] by {
                        assert(self.levels()[t] == before[t]);
                    }
                    assert(self.levels()[0] == before[0]);
                }
                i = i + 1;
            }
            // the two top entries are now the old root and the subtree root;
            // combine them into the new root and push it as a new level
            proof {
                assert(self.levels()[count - 1] == olv[count - 1] + slv[count - 1]);
                assert(olv[count - 1].len() == pow2(0));
                assert(slv[count - 1].len() == pow2(0));
                assert(pow2(0) == 1) by {
                    vstd::arithmetic::power2::lemma2_to64();
                }
                assert(self.levels()[count - 1] == self.arr@[count - 1]@);
            }
            let last_index = self.arr.len() - 1;
            let last_level = &self.arr[last_index];
            let new_root = combine_nodes(last_level[0], last_level[1]);
            let mut new_root_level: Vec<u64> = Vec::new();
            new_root_level.push(new_root);
            let ghost pre_push = self.arr@;
            self.arr.push(new_root_level);
            proof {
                let flv = self.levels();
                assert(flv.len() == count + 1);
                assert forall|t: int| 0 <= t < count implies #[trigger] flv[t] == olv[t]
                    + slv[t] by {
                    assert(flv[t] == pre_push[t]@);
                    assert(views_of(pre_push)[t] == pre_push[t]@);
                }
                assert(pow2(0) == 1) by {
                    vstd::arithmetic::power2::lemma2_to64();
                }
                assert(flv[count] =~= seq![new_root]);
                assert(pre_push[count - 1]@ == olv[count - 1] + slv[count - 1]);
                assert(olv[count - 1].len() == pow2(0));
                assert(slv[count - 1].len() == pow2(0));
                assert(new_root == combine(olv[count - 1][0], slv[count - 1][0]));
                lemma_merged_levels_wf(olv, slv, flv);
                // the old levels sit unchanged at the front of the new ones
                assert forall|t: int| 0 <= t < count implies (#[trigger] olv[t]).is_prefix_of(
                    flv[t],
                ) by {
                    assert((olv[t] + slv[t]).take(olv[t].len() as int) =~= olv[t]);
                }
                assert(flv[0][w] == slv[0][0]);
            }
        } else {
            let new_hash = hash_element(new_elem);
            self.replace_repeated_value(new_hash);
        }
    }

    /// Checks whether the root of the tree can be reconstructed from a
    /// claimed leaf digest, its claimed index, and a proof. Fails closed: an
    /// index that refers only to padding, a wrong digest anywhere, or a
    /// wrong index makes the reconstruction miss the root and the check
    /// return false.
    ///
    /// The result is a function of the tree and the arguments alone, and the
    /// tree is never changed: repeated calls with the same arguments return
    /// the same value.
    pub fn verify(&self, proofs: Vec<u64>, leaf_index: usize, leaf: u64) -> (valid: bool)
        requires
            self.wf(),
        ensures
            valid == (leaf_index < self.diff() && root_from(leaf, leaf_index as int, proofs@)
                == self.root()),
    {
        if leaf_index >= self.diff_elements {
            return false;
        }
        let mut hash_index = leaf_index;
        let mut hash = leaf;
        let mut k: usize = 0;
        proof {
            assert(proofs@.skip(0) =~= proofs@);
        }
        while k < proofs.len()
            invariant
                k <= proofs@.len(),
                root_from(leaf, leaf_index as int, proofs@) == root_from(
                    hash,
                    hash_index as int,
                    proofs@.skip(k as int),
                ),
            decreases proofs@.len() - k,
        {
            let ghost pre_siblings = proofs@.skip(k as int);
            let sibling = proofs[k];
            let new_hash = if hash_index % 2 == 0 {
                combine_nodes(hash, sibling)
            } else {
                combine_nodes(sibling, hash)
            };
            proof {
                assert(pre_siblings.len() > 0);
                assert(pre_siblings[0] == proofs@[k as int]);
                assert(pre_siblings.drop_first() =~= proofs@.skip(k as int + 1));
                assert(root_from(hash, hash_index as int, pre_siblings) == root_from(
                    new_hash,
                    hash_index as int / 2,
                    pre_siblings.drop_first(),
                ));
            }
            hash = new_hash;
            hash_index = hash_index / 2;
            k = k + 1;
        }
        proof {
            assert(proofs@.skip(proofs@.len() as int) =~= Seq::<u64>::empty());
            assert(self.levels()[self.levels().len() - 1].len() == pow2(0));
            assert(pow2(0) == 1) by {
                vstd::arithmetic::power2::lemma2_to64();
            }
        }
        self.is_root(hash)
    }
}

} // verus!
