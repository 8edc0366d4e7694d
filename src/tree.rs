use crate::error::MerkleError;
use crate::field::{FieldElement, canonical_hex, encode, leaf_element, leaf_value};
use crate::hash::{LEVEL_DOMAINS, default_value, default_values, hash_pair, pedersen_of};
use sapling_crypto_ce::babyjubjub::JubjubBn256;
use vstd::prelude::*;

verus! {

/// Depth of a tree created without an explicit depth.
pub const DEFAULT_TREE_DEPTH: u32 = 32;

/// Depths from this value up are refused.
pub const MAX_DEPTH: u32 = 256;

/// The number of leaves a tree of depth `d` holds.
pub open spec fn capacity(d: nat) -> nat
    decreases d,
{
    if d == 0 {
        1
    } else {
        2 * capacity((d - 1) as nat)
    }
}

/// How many slots of height `h` are written once `n` leaves are in: `n`
/// divided by `2^h`, rounded up.
pub open spec fn written(n: nat, h: nat) -> nat
    decreases h,
{
    if h == 0 {
        n
    } else {
        ((written(n, (h - 1) as nat) + 1) / 2) as nat
    }
}

/// The index, at height `h`, of the slot above leaf `n`: `n` divided by
/// `2^h`, rounded down.
pub open spec fn path_index(n: nat, h: nat) -> nat
    decreases h,
{
    if h == 0 {
        n
    } else {
        path_index(n, (h - 1) as nat) / 2
    }
}

/// The value of slot `i` at height `h` of a tree whose leaves are `leaves`:
/// a leaf's element at height 0, the empty-subtree value where no leaf lies
/// below, and otherwise the hash of the two children, tagged with `h`.
pub open spec fn node_value(leaves: Seq<Seq<u8>>, h: nat, i: nat) -> int
    decreases h,
{
    if h == 0 {
        if i < leaves.len() {
            leaf_value(leaves[i as int])
        } else {
            0
        }
    } else if i >= written(leaves.len(), h) {
        default_value(h)
    } else {
        pedersen_of(
            node_value(leaves, (h - 1) as nat, 2 * i),
            node_value(leaves, (h - 1) as nat, 2 * i + 1),
            h,
        )
    }
}

/// The root of a depth-`depth` tree holding `leaves`, computed from scratch.
pub open spec fn tree_root(leaves: Seq<Seq<u8>>, depth: nat) -> int {
    node_value(leaves, depth, 0)
}

/// The leaves a tree is created with.
pub open spec fn initial_leaves(leaves: Option<Vec<Vec<u8>>>) -> Seq<Seq<u8>> {
    match leaves {
        Some(v) => v@.map_values(|x: Vec<u8>| x@),
        None => Seq::<Seq<u8>>::empty(),
    }
}

/// A tree's metadata.
#[derive(Clone, Copy, Debug, PartialEq, Eq, Structural)]
pub struct MTree {
    pub fee: u64,
    pub depth: u32,
    pub leaf_count: u64,
}

/// One tree: its metadata, its leaves as inserted, for each height
/// `0..=depth` the slots written so far (a slot past the end is empty), and
/// the empty-subtree value of each height.
pub struct TreeEntry {
    pub meta: MTree,
    pub leaves: Vec<Vec<u8>>,
    pub levels: Vec<Vec<FieldElement>>,
    pub defaults: Vec<FieldElement>,
}

/// Height `k` holds exactly the written slots, each the value the leaves give.
pub open spec fn level_ok(levels: Seq<Vec<FieldElement>>, leaves: Seq<Seq<u8>>, k: int) -> bool {
    &&& levels[k]@.len() == written(leaves.len(), k as nat)
    &&& forall|i: int|
        0 <= i < levels[k]@.len() ==> (#[trigger] levels[k]@[i]).wf() && levels[k]@[i]@
            == node_value(leaves, k as nat, i as nat)
}

impl TreeEntry {
    pub open spec fn leaf_seq(&self) -> Seq<Seq<u8>> {
        self.leaves@.map_values(|v: Vec<u8>| v@)
    }

    pub open spec fn wf(&self) -> bool {
        &&& self.meta.depth < LEVEL_DOMAINS
        &&& self.meta.leaf_count == self.leaves@.len()
        &&& self.leaves@.len() <= capacity(self.meta.depth as nat)
        &&& forall|i: int| 0 <= i < self.leaves@.len() ==> (#[trigger] self.leaves@[i])@.len() > 0
        &&& self.levels@.len() == self.meta.depth + 1
        &&& forall|k: int| 0 <= k <= self.meta.depth ==> #[trigger] level_ok(self.levels@, self.leaf_seq(), k)
        &&& self.defaults@.len() == self.meta.depth + 1
        &&& forall|k: int|
            0 <= k <= self.meta.depth ==> (#[trigger] self.defaults@[k]).wf() && self.defaults@[k]@ == default_value(k as nat)
    }

    /// The root that the stored slots give.
    pub open spec fn stored_root(&self) -> int {
        if self.levels@[self.meta.depth as int]@.len() == 0 {
            default_value(self.meta.depth as nat)
        } else {
            self.levels@[self.meta.depth as int]@[0]@
        }
    }
}

pub proof fn lemma_written_empty(h: nat)
    ensures
        written(0, h) == 0,
    decreases h,
{
    if h > 0 {
        lemma_written_empty((h - 1) as nat);
    }
}

pub proof fn lemma_written_succ(n: nat, h: nat)
    ensures
        written(n + 1, h) == path_index(n, h) + 1,
        path_index(n, h) <= written(n, h) <= path_index(n, h) + 1,
    decreases h,
{
    if h > 0 {
        lemma_written_succ(n, (h - 1) as nat);
    }
}

/// Appending a leaf changes no slot but those on its path.
pub proof fn lemma_off_path_unchanged(leaves: Seq<Seq<u8>>, x: Seq<u8>, h: nat, i: nat)
    requires
        i != path_index(leaves.len(), h),
    ensures
        node_value(leaves.push(x), h, i) == node_value(leaves, h, i),
    decreases h,
{
    let n = leaves.len();
    lemma_written_succ(n, h);
    if h == 0 {
        if i < n {
            assert(leaves.push(x)[i as int] == leaves[i as int]);
        }
    } else {
        lemma_written_succ(n, (h - 1) as nat);
        if i < path_index(n, h) {
            lemma_off_path_unchanged(leaves, x, (h - 1) as nat, 2 * i);
            lemma_off_path_unchanged(leaves, x, (h - 1) as nat, 2 * i + 1);
        }
    }
}


pub proof fn lemma_capacity_grows(a: nat, b: nat)
    requires
        a <= b,
    ensures
        1 <= capacity(a) <= capacity(b),
    decreases b,
{
    if b > 0 {
        if b > a {
            lemma_capacity_grows(a, (b - 1) as nat);
        } else {
            lemma_capacity_grows((a - 1) as nat, (b - 1) as nat);
        }
    }
}

/// Every capacity the hash's level domains allow fits in a `u64`.
pub proof fn lemma_capacity_fits(d: nat)
    requires
        d < LEVEL_DOMAINS,
    ensures
        capacity(d) <= 0x2000000000000000,
{
    reveal_with_fuel(capacity, 62);
    assert(capacity(61) == 0x2000000000000000);
    lemma_capacity_grows(d, 61);
}

/// `2^depth`, the number of leaves a tree of that depth holds.
pub fn tree_capacity(depth: u32) -> (r: u64)
    requires
        depth < LEVEL_DOMAINS,
    ensures
        r == capacity(depth as nat),
{
    proof {
        lemma_capacity_fits(depth as nat);
    }
    let mut cap: u64 = 1;
    let mut k: u32 = 0;
    while k < depth
        invariant
            k <= depth < LEVEL_DOMAINS,
            cap == capacity(k as nat),
            capacity(depth as nat) <= 0x2000000000000000,
        decreases depth - k,
    {
        proof {
            lemma_capacity_grows((k + 1) as nat, depth as nat);
        }
        cap = cap * 2;
        k = k + 1;
    }
    cap
}

impl TreeEntry {
    /// Appends a leaf and rehashes the path above it, one slot per height,
    /// reading an unwritten sibling as the empty-subtree value of its height.
    #[verifier::rlimit(50)]
    fn insert(&mut self, params: &JubjubBn256, leaf: Vec<u8>)
        requires
            old(self).wf(),
            leaf@.len() > 0,
            old(self).leaves@.len() < capacity(old(self).meta.depth as nat),
        ensures
            final(self).wf(),
            final(self).leaf_seq() == old(self).leaf_seq().push(leaf@),
            final(self).meta == (MTree { leaf_count: (old(self).meta.leaf_count + 1) as u64, ..old(self).meta }),
    {
        let ghost old_leaves = self.leaf_seq();
        let ghost n = old_leaves.len();
        let depth = self.meta.depth as usize;
        let ghost old_levels = self.levels@;
        proof {
            lemma_capacity_fits(depth as nat);
        }
        let fe = leaf_element(&leaf);
        let idx0 = self.leaves.len();
        self.leaves.push(leaf);
        self.meta.leaf_count = self.meta.leaf_count + 1;
        let ghost new_leaves = self.leaf_seq();
        assert(new_leaves =~= old_leaves.push(leaf@));
        self.levels[0].push(fe);
        let ghost leaves_vec = self.leaves@;
        let ghost meta_after = self.meta;
        proof {
            assert forall|i: int| 0 <= i < leaves_vec.len() implies (#[trigger] leaves_vec[i])@.len() > 0 by {
                if i < n {
                    assert(leaves_vec[i]@ == new_leaves[i]);
                    assert(new_leaves[i] == old_leaves[i]);
                    assert(old(self).leaves@[i]@ == old_leaves[i]);
                }
            }
            assert forall|k: int| 1 <= k <= depth implies
                #[trigger] self.levels@[k]@.len() == written(n, k as nat) && forall|i: int|
                    0 <= i < self.levels@[k]@.len() ==> (self.levels@[k]@[i]).wf() && (i != path_index(n, k as nat)
                    ==> self.levels@[k]@[i]@ == node_value(new_leaves, k as nat, i as nat)) by {
                assert(level_ok(old_levels, old_leaves, k));
                assert(self.levels@[k] == old_levels[k]);
                assert forall|i: int| 0 <= i < self.levels@[k]@.len() && i != path_index(n, k as nat) implies
                    self.levels@[k]@[i]@ == node_value(new_leaves, k as nat, i as nat) by {
                    lemma_off_path_unchanged(old_leaves, leaf@, k as nat, i as nat);
                }
            }
            assert(level_ok(old_levels, old_leaves, 0));
            assert forall|i: int| 0 <= i < self.levels@[0]@.len() implies (#[trigger] self.levels@[0]@[i]).wf()
                && self.levels@[0]@[i]@ == node_value(new_leaves, 0, i as nat) by {
                if i < n {
                    assert(new_leaves[i] == old_leaves[i]);
                }
            }
            assert(level_ok(self.levels@, new_leaves, 0));
        }
        let mut idx: usize = idx0;
        let mut h: usize = 0;
        while h < depth
            invariant
                depth == self.meta.depth,
                depth < LEVEL_DOMAINS,
                self.levels@.len() == depth + 1,
                new_leaves == self.leaf_seq(),
                self.leaves@ == leaves_vec,
                self.meta == meta_after,
                new_leaves.len() == n + 1,
                h <= depth,
                idx == path_index(n, h as nat),
                self.defaults@.len() == depth + 1,
                forall|k: int| 0 <= k <= depth ==> (#[trigger] self.defaults@[k]).wf() && self.defaults@[k]@ == default_value(k as nat),
                forall|k: int| 0 <= k <= h ==> #[trigger] level_ok(self.levels@, new_leaves, k),
                forall|k: int| h < k <= depth ==>
                    #[trigger] self.levels@[k]@.len() == written(n, k as nat) && forall|i: int|
                    0 <= i < self.levels@[k]@.len() ==> (self.levels@[k]@[i]).wf() && (i != path_index(n, k as nat)
                    ==> self.levels@[k]@[i]@ == node_value(new_leaves, k as nat, i as nat)),
            decreases depth - h,
        {
            proof {
                lemma_written_succ(n, h as nat);
                lemma_written_succ(n, (h + 1) as nat);
                assert(level_ok(self.levels@, new_leaves, h as int));
            }
            let row = &self.levels[h];
            let parent;
            if idx % 2 == 0 {
                if idx + 1 < row.len() {
                    parent = hash_pair(params, &row[idx], &row[idx + 1], h + 1);
                } else {
                    proof {
                        reveal_with_fuel(node_value, 2);
                    }
                    parent = hash_pair(params, &row[idx], &self.defaults[h], h + 1);
                }
            } else {
                parent = hash_pair(params, &row[idx - 1], &row[idx], h + 1);
            }
            let j = idx / 2;
            let ghost before = self.levels@;
            if j < self.levels[h + 1].len() {
                self.levels[h + 1].set(j, parent);
            } else {
                self.levels[h + 1].push(parent);
            }
            proof {
                assert forall|k: int| 0 <= k <= h + 1 implies #[trigger] level_ok(self.levels@, new_leaves, k) by {
                    if k <= h {
                        assert(self.levels@[k] == before[k]);
                        assert(level_ok(before, new_leaves, k));
                    } else {
                        assert forall|i: int| 0 <= i < self.levels@[k]@.len() implies
                            (#[trigger] self.levels@[k]@[i]).wf() && self.levels@[k]@[i]@
                            == node_value(new_leaves, k as nat, i as nat) by {
                            if i != j {
                                assert(self.levels@[k]@[i] == before[k]@[i]);
                            }
                        }
                    }
                }
                assert forall|k: int| h + 1 < k <= depth implies
                    #[trigger] self.levels@[k]@.len() == written(n, k as nat) && forall|i: int|
                    0 <= i < self.levels@[k]@.len() ==> (self.levels@[k]@[i]).wf() && (i != path_index(n, k as nat)
                    ==> self.levels@[k]@[i]@ == node_value(new_leaves, k as nat, i as nat)) by {
                    assert(self.levels@[k] == before[k]);
                }
            }
            idx = j;
            h = h + 1;
        }
    }
}


/// The accumulator's state: every tree created so far, indexed by its id,
/// and the nullifiers that verified proofs have spent.
pub struct Module {
    pub trees: Vec<TreeEntry>,
    pub used_nullifiers: Vec<Vec<u8>>,
    pub params: JubjubBn256,
}

impl Module {
    pub open spec fn wf(&self) -> bool {
        forall|id: int| 0 <= id < self.trees@.len() ==> (#[trigger] self.trees@[id]).wf()
    }

    /// The set of spent nullifiers.
    pub open spec fn nullifier_set(&self) -> Set<Seq<u8>> {
        self.used_nullifiers@.map_values(|v: Vec<u8>| v@).to_set()
    }

    /// The root of tree `id`, from its leaves.
    pub open spec fn root_of(&self, id: int) -> int {
        tree_root(self.trees@[id].leaf_seq(), self.trees@[id].meta.depth as nat)
    }

    /// A store with no trees and no spent nullifiers.
    pub fn new() -> (r: Module)
        ensures
            r.wf(),
            r.trees@.len() == 0,
            r.nullifier_set() == Set::<Seq<u8>>::empty(),
    {
        let r = Module { trees: Vec::new(), used_nullifiers: Vec::new(), params: JubjubBn256::new() };
        assert(r.used_nullifiers@.map_values(|v: Vec<u8>| v@).to_set() =~= Set::<Seq<u8>>::empty());
        r
    }

    /// Creates a tree of the given depth (32 when absent) charging the given
    /// fee (0 when absent), then inserts the initial leaves in order. Nothing
    /// changes on an error: a depth the level domains cannot serve, an empty
    /// leaf among those that fit, or more leaves than the tree holds.
    #[verifier::loop_isolation(false)]
    pub fn create_tree(&mut self, fee: Option<u64>, depth: Option<u32>, leaves: Option<Vec<Vec<u8>>>) -> (r: Result<u32, MerkleError>)
        requires
            old(self).wf(),
            old(self).trees@.len() < u32::MAX,
        ensures
            final(self).wf(),
            ({
                let d = match depth { Some(d) => d, None => DEFAULT_TREE_DEPTH };
                let f = match fee { Some(f) => f, None => 0u64 };
                let ls = initial_leaves(leaves);
                let cap = capacity(d as nat);
                if d >= MAX_DEPTH || d >= LEVEL_DOMAINS {
                    r == Err::<u32, MerkleError>(MerkleError::DepthTooLarge) && *final(self) == *old(self)
                } else if exists|i: int| 0 <= i < ls.len() && i < cap && (#[trigger] ls[i]).len() == 0 {
                    r == Err::<u32, MerkleError>(MerkleError::InvalidEncoding) && *final(self) == *old(self)
                } else if ls.len() > cap {
                    r == Err::<u32, MerkleError>(MerkleError::TreeFull) && *final(self) == *old(self)
                } else {
                    &&& r is Ok && r->Ok_0 == old(self).trees@.len()
                    &&& final(self).trees@.len() == old(self).trees@.len() + 1
                    &&& final(self).trees@.drop_last() == old(self).trees@
                    &&& final(self).trees@.last().meta == (MTree { fee: f, depth: d, leaf_count: ls.len() as u64 })
                    &&& final(self).trees@.last().leaf_seq() == ls
                    &&& final(self).used_nullifiers == old(self).used_nullifiers
                }
            }),
    {
        let ghost init = initial_leaves(leaves);
        let d = match depth {
            Some(d) => d,
            None => DEFAULT_TREE_DEPTH,
        };
        let f = match fee {
            Some(f) => f,
            None => 0u64,
        };
        let ls = match leaves {
            Some(v) => v,
            None => Vec::new(),
        };
        let ghost lseq = ls@.map_values(|x: Vec<u8>| x@);
        assert(lseq == init) by {
            if init.len() == 0 {
                assert(lseq =~= init);
            }
        }
        if d >= MAX_DEPTH || d as usize >= LEVEL_DOMAINS {
            return Err(MerkleError::DepthTooLarge);
        }
        let cap = tree_capacity(d);
        let mut i: usize = 0;
        while i < ls.len() && (i as u64) < cap
            invariant
                i <= ls@.len(),
                i <= cap,
                forall|j: int| 0 <= j < i ==> (#[trigger] ls@[j])@.len() > 0,
            decreases ls@.len() - i,
        {
            if ls[i].len() == 0 {
                assert(0 <= i < lseq.len() && i < cap && lseq[i as int].len() == 0);
                return Err(MerkleError::InvalidEncoding);
            }
            i = i + 1;
        }
        assert(!exists|j: int| 0 <= j < lseq.len() && j < cap && (#[trigger] lseq[j]).len() == 0) by {
            assert forall|j: int| 0 <= j < lseq.len() && j < cap implies (#[trigger] lseq[j]).len() > 0 by {
                assert(lseq[j] == ls@[j]@);
            }
        }
        if ls.len() as u64 > cap {
            return Err(MerkleError::TreeFull);
        }
        let defaults = default_values(&self.params, d as usize);
        let mut levels: Vec<Vec<FieldElement>> = Vec::new();
        let mut k: u32 = 0;
        while k <= d
            invariant
                k <= d + 1,
                d < LEVEL_DOMAINS,
                levels@.len() == k,
                forall|j: int| 0 <= j < k ==> (#[trigger] levels@[j])@.len() == 0,
            decreases d + 1 - k,
        {
            levels.push(Vec::new());
            k = k + 1;
        }
        let mut entry = TreeEntry { meta: MTree { fee: f, depth: d, leaf_count: 0 }, leaves: Vec::new(), levels, defaults };
        proof {
            assert(entry.leaf_seq() =~= Seq::<Seq<u8>>::empty());
            assert forall|j: int| 0 <= j <= d implies #[trigger] level_ok(entry.levels@, entry.leaf_seq(), j) by {
                lemma_written_empty(j as nat);
            }
            lemma_capacity_grows(0, d as nat);
        }
        let mut i: usize = 0;
        while i < ls.len()
            invariant
                i <= ls@.len(),
                ls@.len() <= capacity(d as nat),
                lseq == ls@.map_values(|x: Vec<u8>| x@),
                forall|j: int| 0 <= j < ls@.len() ==> (#[trigger] ls@[j])@.len() > 0,
                entry.wf(),
                entry.meta == (MTree { fee: f, depth: d, leaf_count: i as u64 }),
                entry.leaf_seq() == lseq.take(i as int),
            decreases ls@.len() - i,
        {
            entry.insert(&self.params, ls[i].clone());
            assert(lseq.take(i as int).push(ls@[i as int]@) =~= lseq.take(i + 1));
            i = i + 1;
        }
        assert(lseq.take(ls@.len() as int) =~= lseq);
        let id = self.trees.len() as u32;
        self.trees.push(entry);
        proof {
            assert forall|j: int| 0 <= j < self.trees@.len() implies (#[trigger] self.trees@[j]).wf() by {
                if j < old(self).trees@.len() {
                    assert(self.trees@[j] == old(self).trees@[j]);
                }
            }
            assert(self.trees@.drop_last() =~= old(self).trees@);
        }
        Ok(id)
    }

    /// Appends a leaf to tree `tree_id` and rehashes the path above it.
    /// Nothing changes on an error: an unknown tree, a full tree, or an empty
    /// leaf (the empty string marks an unwritten slot).
    pub fn add_leaf(&mut self, tree_id: u32, leaf: Vec<u8>) -> (r: Result<(), MerkleError>)
        requires
            old(self).wf(),
        ensures
            final(self).wf(),
            tree_id >= old(self).trees@.len() ==> r == Err::<(), MerkleError>(MerkleError::UnknownTree)
                && *final(self) == *old(self),
            tree_id < old(self).trees@.len() ==> ({
                let t = old(self).trees@[tree_id as int];
                if t.meta.leaf_count >= capacity(t.meta.depth as nat) {
                    r == Err::<(), MerkleError>(MerkleError::TreeFull) && *final(self) == *old(self)
                } else if leaf@.len() == 0 {
                    r == Err::<(), MerkleError>(MerkleError::InvalidEncoding) && *final(self) == *old(self)
                } else {
                    &&& r is Ok
                    &&& final(self).trees@ == old(self).trees@.update(tree_id as int, final(self).trees@[tree_id as int])
                    &&& final(self).trees@[tree_id as int].leaf_seq() == t.leaf_seq().push(leaf@)
                    &&& final(self).trees@[tree_id as int].meta == (MTree { leaf_count: (t.meta.leaf_count + 1) as u64, ..t.meta })
                    &&& final(self).used_nullifiers == old(self).used_nullifiers
                }
            }),
    {
        let id = tree_id as usize;
        if id >= self.trees.len() {
            return Err(MerkleError::UnknownTree);
        }
        assert(self.trees@[id as int].wf());
        let depth = self.trees[id].meta.depth;
        let cap = tree_capacity(depth);
        if self.trees[id].meta.leaf_count >= cap {
            return Err(MerkleError::TreeFull);
        }
        if leaf.len() == 0 {
            return Err(MerkleError::InvalidEncoding);
        }
        self.trees[id].insert(&self.params, leaf);
        proof {
            assert forall|j: int| 0 <= j < self.trees@.len() implies (#[trigger] self.trees@[j]).wf() by {
                if j != id {
                    assert(self.trees@[j] == old(self).trees@[j]);
                }
            }
            assert(self.trees@ =~= old(self).trees@.update(id as int, self.trees@[id as int]));
        }
        Ok(())
    }

    /// The root element of tree `id`: its root slot, or the empty-subtree
    /// value of its depth while the slot is unwritten.
    pub fn root_element(&self, id: usize) -> (r: FieldElement)
        requires
            self.wf(),
            id < self.trees@.len(),
        ensures
            r.wf(),
            r@ == self.root_of(id as int),
            r@ == self.trees@[id as int].stored_root(),
    {
        let t = &self.trees[id];
        assert(t.wf());
        let d = t.meta.depth as usize;
        assert(level_ok(t.levels@, t.leaf_seq(), d as int));
        let top = &t.levels[d];
        if top.len() == 0 {
            proof {
                reveal_with_fuel(default_value, 1);
            }
            t.defaults[d].copy()
        } else {
            top[0].copy()
        }
    }

    /// The canonical hex text of tree `tree_id`'s current root.
    pub fn current_root(&self, tree_id: u32) -> (r: Result<Vec<u8>, MerkleError>)
        requires
            self.wf(),
        ensures
            tree_id >= self.trees@.len() ==> r == Err::<Vec<u8>, MerkleError>(MerkleError::UnknownTree),
            tree_id < self.trees@.len() ==> r is Ok && r->Ok_0@ == canonical_hex(self.root_of(tree_id as int)),
    {
        if tree_id as usize >= self.trees.len() {
            return Err(MerkleError::UnknownTree);
        }
        let root = self.root_element(tree_id as usize);
        Ok(encode(&root))
    }

    /// The metadata of tree `tree_id`, if it exists.
    pub fn merkle_tree_metadata(&self, tree_id: u32) -> (r: Option<MTree>)
        ensures
            tree_id >= self.trees@.len() ==> r is None,
            tree_id < self.trees@.len() ==> r == Some(self.trees@[tree_id as int].meta),
    {
        if (tree_id as usize) < self.trees.len() {
            Some(self.trees[tree_id as usize].meta)
        } else {
            None
        }
    }

    /// The empty-subtree value of height `index`.
    pub fn get_precomputes(index: usize) -> (r: FieldElement)
        requires
            index < LEVEL_DOMAINS,
        ensures
            r.wf(),
            r@ == default_value(index as nat),
    {
        let params = JubjubBn256::new();
        let mut pt = FieldElement::zero();
        let mut k: usize = 0;
        while k < index
            invariant
                k <= index < LEVEL_DOMAINS,
                pt.wf(),
                pt@ == default_value(k as nat),
            decreases index - k,
        {
            pt = hash_pair(&params, &pt, &pt, k + 1);
            k = k + 1;
        }
        pt
    }

    /// A slot's bytes as read at height `index`: the slot itself when
    /// written, else the canonical text of that height's empty-subtree value.
    pub fn get_unique_leaf(leaf: Vec<u8>, index: usize) -> (r: Vec<u8>)
        requires
            index < LEVEL_DOMAINS,
        ensures
            leaf@.len() > 0 ==> r@ == leaf@,
            leaf@.len() == 0 ==> r@ == canonical_hex(default_value(index as nat)),
    {
        if leaf.len() > 0 {
            leaf
        } else {
            encode(&Self::get_precomputes(index))
        }
    }

    /// The root of a depth-`depth` tree holding `leaves`, computed from
    /// scratch one height at a time.
    pub fn compute_new_root(leaves: &Vec<Vec<u8>>, depth: usize) -> (r: FieldElement)
        requires
            depth < LEVEL_DOMAINS,
            forall|i: int| 0 <= i < leaves@.len() ==> (#[trigger] leaves@[i])@.len() > 0,
        ensures
            r.wf(),
            r@ == tree_root(leaves@.map_values(|x: Vec<u8>| x@), depth as nat),
    {
        let ghost ls = leaves@.map_values(|x: Vec<u8>| x@);
        let params = JubjubBn256::new();
        let defaults = default_values(&params, depth);
        let mut cur: Vec<FieldElement> = Vec::new();
        let mut i: usize = 0;
        while i < leaves.len()
            invariant
                i <= leaves@.len(),
                ls == leaves@.map_values(|x: Vec<u8>| x@),
                forall|j: int| 0 <= j < leaves@.len() ==> (#[trigger] leaves@[j])@.len() > 0,
                cur@.len() == i,
                forall|j: int| 0 <= j < i ==> (#[trigger] cur@[j]).wf() && cur@[j]@ == node_value(ls, 0, j as nat),
            decreases leaves@.len() - i,
        {
            cur.push(leaf_element(&leaves[i]));
            i = i + 1;
        }
        let mut h: usize = 0;
        while h < depth
            invariant
                h <= depth < LEVEL_DOMAINS,
                defaults@.len() == depth + 1,
                forall|k: int| 0 <= k <= depth ==> (#[trigger] defaults@[k]).wf() && defaults@[k]@ == default_value(k as nat),
                cur@.len() == written(ls.len(), h as nat),
                forall|j: int| 0 <= j < cur@.len() ==> (#[trigger] cur@[j]).wf() && cur@[j]@ == node_value(ls, h as nat, j as nat),
            decreases depth - h,
        {
            let m = cur.len() / 2 + cur.len() % 2;
            let mut next: Vec<FieldElement> = Vec::new();
            let mut j: usize = 0;
            while j < m
                invariant
                    h < depth < LEVEL_DOMAINS,
                    m == written(ls.len(), (h + 1) as nat),
                    m == cur@.len() / 2 + cur@.len() % 2,
                    defaults@.len() == depth + 1,
                    forall|k: int| 0 <= k <= depth ==> (#[trigger] defaults@[k]).wf() && defaults@[k]@ == default_value(k as nat),
                    cur@.len() == written(ls.len(), h as nat),
                    forall|q: int| 0 <= q < cur@.len() ==> (#[trigger] cur@[q]).wf() && cur@[q]@ == node_value(ls, h as nat, q as nat),
                    j <= m,
                    next@.len() == j,
                    forall|q: int| 0 <= q < j ==> (#[trigger] next@[q]).wf() && next@[q]@ == node_value(ls, (h + 1) as nat, q as nat),
                decreases m - j,
            {
                let parent;
                if j < cur.len() / 2 {
                    parent = hash_pair(&params, &cur[2 * j], &cur[2 * j + 1], h + 1);
                } else {
                    proof {
                        reveal_with_fuel(node_value, 2);
                    }
                    parent = hash_pair(&params, &cur[2 * j], &defaults[h], h + 1);
                }
                next.push(parent);
                j = j + 1;
            }
            cur = next;
            h = h + 1;
        }
        if cur.len() == 0 {
            proof {
                reveal_with_fuel(default_value, 1);
            }
            defaults[depth].copy()
        } else {
            cur[0].copy()
        }
    }
}

/// Incremental insertion agrees with recomputation from scratch: in a
/// well-formed store, the root that a tree's slots hold after its leaves were
/// inserted one at a time is the root computed from those leaves alone.
pub proof fn lemma_incremental_root(m: Module, id: int)
    requires
        m.wf(),
        0 <= id < m.trees@.len(),
    ensures
        m.trees@[id].stored_root() == tree_root(m.trees@[id].leaf_seq(), m.trees@[id].meta.depth as nat),
{
    let t = m.trees@[id];
    assert(t.wf());
    let d = t.meta.depth as int;
    assert(level_ok(t.levels@, t.leaf_seq(), d));
    reveal_with_fuel(default_value, 1);
}

/// A tree with no leaves has the empty-subtree value of its depth as root.
pub proof fn lemma_empty_tree_root(d: nat)
    ensures
        tree_root(Seq::<Seq<u8>>::empty(), d) == default_value(d),
{
    lemma_written_empty(d);
    reveal_with_fuel(default_value, 1);
}

} // verus!
