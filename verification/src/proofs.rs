//! Inclusion proofs: generation from a tree, and replay against a root.
//!
//! A proof for one leaf lists, bottom-up, the sibling hash met at each
//! level together with the side that sibling belongs on.  Replaying the
//! proof from the leaf's own hash recomputes the root.

use crate::error::MerkleError;
use crate::hashing::copy_hash;
use crate::hashing::hash_data;
use crate::hashing::hash_leaf_spec;
use crate::hashing::hash_pair_spec;
use crate::hashing::hashes_equal;
use crate::tree::lemma_level_shape;
use crate::tree::lemma_level_step;
use crate::tree::lemma_parent_step;
use crate::tree::level_len;
use crate::tree::level_start;
use crate::tree::link_ok;
use crate::tree::parent_index_spec;
use crate::tree::MerkleTree;
use vstd::arithmetic::div_mod::lemma_fundamental_div_mod;
use vstd::prelude::*;

verus! {

/// Which side a sibling hash is concatenated on during replay, relative to
/// the hash being proved.
#[derive(Debug, Clone, Copy, PartialEq, Eq, Structural)]
pub enum HashDirection {
    Left,
    Right,
}

/// An inclusion proof: one (side, sibling hash) entry per level, from the
/// leaf level up to just below the root.
#[derive(Debug, Default)]
pub struct Proof {
    pub hashes: Vec<(HashDirection, crate::Hash)>,
}

/// The entries of a proof under construction, with the hashes read as
/// byte sequences.
pub open spec fn entries_of(s: Seq<(HashDirection, Vec<u8>)>) -> Seq<(HashDirection, Seq<u8>)> {
    Seq::new(s.len(), |j: int| (s[j].0, s[j].1@))
}

impl Proof {
    /// The proof's entries with the hashes read as byte sequences.
    pub open spec fn entries(self) -> Seq<(HashDirection, Seq<u8>)> {
        entries_of(self.hashes@)
    }
}

/// The flat-array index of the sibling paired with node `i`.
pub open spec fn sibling_index(i: int) -> int {
    if i % 2 == 0 {
        i + 1
    } else {
        i - 1
    }
}

/// The side the sibling of node `i` belongs on during replay.
pub open spec fn direction_of(i: int) -> HashDirection {
    if i % 2 == 0 {
        HashDirection::Right
    } else {
        HashDirection::Left
    }
}

/// The flat-array index of the ancestor of node `i` after climbing `j`
/// levels.
pub open spec fn ancestor_index(len: int, i: int, j: nat) -> int
    decreases j,
{
    if j == 0 {
        i
    } else {
        parent_index_spec(len, ancestor_index(len, i, (j - 1) as nat))
    }
}

/// The proof entries for leaf `i`: at each of `m` levels from the bottom,
/// the sibling of the current ancestor together with its side.
pub open spec fn path_entries(ns: Seq<Vec<u8>>, i: int, m: nat) -> Seq<(HashDirection, Seq<u8>)> {
    Seq::new(
        m,
        |j: int|
            (
                direction_of(ancestor_index(ns.len() as int, i, j as nat)),
                ns[sibling_index(ancestor_index(ns.len() as int, i, j as nat))]@,
            ),
    )
}

/// Whether leaf `i` is the first leaf whose hash equals the hash of the
/// given block.
pub open spec fn first_leaf_match(t: MerkleTree, block: Seq<u8>, i: int) -> bool {
    &&& 0 <= i < t.spec_num_leaves()
    &&& t.nodes@[i]@ == hash_leaf_spec(block)
    &&& forall|j: int| 0 <= j < i ==> t.nodes@[j]@ != hash_leaf_spec(block)
}

/// One replay step: combine the running hash with a sibling on the
/// recorded side.
pub open spec fn apply_entry(current: Seq<u8>, entry: (HashDirection, Seq<u8>)) -> Seq<u8> {
    match entry.0 {
        HashDirection::Left => hash_pair_spec(entry.1, current),
        HashDirection::Right => hash_pair_spec(current, entry.1),
    }
}

/// The hash that replaying all entries in order, starting from `start`,
/// arrives at.
pub open spec fn replay(entries: Seq<(HashDirection, Seq<u8>)>, start: Seq<u8>) -> Seq<u8>
    decreases entries.len(),
{
    if entries.len() == 0 {
        start
    } else {
        replay(entries.skip(1), apply_entry(start, entries[0]))
    }
}

/// Whether a proof ties the given block to the given root hash.
pub open spec fn spec_proof_valid(
    entries: Seq<(HashDirection, Seq<u8>)>,
    block: Seq<u8>,
    root: Seq<u8>,
) -> bool {
    replay(entries, hash_leaf_spec(block)) == root
}

/// Replaying entries extended by one more step applies that step last.
pub proof fn lemma_replay_push(
    entries: Seq<(HashDirection, Seq<u8>)>,
    entry: (HashDirection, Seq<u8>),
    start: Seq<u8>,
)
    ensures
        replay(entries.push(entry), start) == apply_entry(replay(entries, start), entry),
    decreases entries.len(),
{
    if entries.len() == 0 {
        assert(entries.push(entry)[0] == entry);
        assert(entries.push(entry).skip(1) =~= entries);
        assert(replay(entries.push(entry), start) == replay(
            entries.push(entry).skip(1),
            apply_entry(start, entries.push(entry)[0]),
        ));
    } else {
        assert(entries.push(entry)[0] == entries[0]);
        assert(entries.push(entry).skip(1) =~= entries.skip(1).push(entry));
        lemma_replay_push(entries.skip(1), entry, apply_entry(start, entries[0]));
    }
}

impl MerkleTree {
    /// The flat-array index of the parent of the given node.  Only the
    /// root, the very last node, has no parent.
    fn parent_index(&self, index: usize) -> (r: usize)
        requires
            self.nodes@.len() >= 1,
            index < self.nodes@.len() - 1,
        ensures
            r as int == parent_index_spec(self.nodes@.len() as int, index as int),
            index < r < self.nodes@.len(),
    {
        self.nodes.len() - ((self.nodes.len() - index) / 2)
    }

    /// Generates the inclusion proof for the leaf at the given index: a
    /// walk from the leaf up to (not including) the root, recording at
    /// each level the sibling hash and the side it belongs on.  Fails
    /// with `IndexIsNotALeaf` exactly when the index is at or beyond the
    /// leaf range.
    pub fn get_merkle_proof_by_index(&self, leaf_index: usize) -> (r: Result<Proof, MerkleError>)
        requires
            self.wf(),
        ensures
            match r {
                Ok(p) => {
                    &&& (leaf_index as int) < self.spec_num_leaves()
                    &&& p.entries() == path_entries(
                        self.nodes@,
                        leaf_index as int,
                        (self.levels - 1) as nat,
                    )
                    &&& p.entries().len() == self.levels - 1
                    &&& replay(p.entries(), self.nodes@[leaf_index as int]@) == self.root_view()
                },
                Err(e) => {
                    &&& e == MerkleError::IndexIsNotALeaf
                    &&& leaf_index as int >= self.spec_num_leaves()
                },
            },
    {
        let num = self.num_leaves();
        if leaf_index >= num {
            return Err(MerkleError::IndexIsNotALeaf);
        }
        let ghost tlv: int = self.levels as int;
        let ghost total: int = self.nodes@.len() as int;
        let mut path: Vec<(HashDirection, crate::Hash)> = Vec::new();
        let mut current: usize = leaf_index;
        let ghost mut p: int = leaf_index as int;
        let ghost mut k: int = 0;
        let mut step: usize = 0;
        proof {
            lemma_level_shape(tlv, 0);
        }
        while step < self.levels - 1
            invariant
                self.wf(),
                tlv == self.levels as int,
                total == self.nodes@.len() as int,
                step as int == k,
                0 <= k <= tlv - 1,
                current as int == level_start(tlv, k) + p,
                0 <= p < level_len(tlv, k),
                current as int == ancestor_index(total, leaf_index as int, k as nat),
                (leaf_index as int) < self.spec_num_leaves(),
                path@.len() == k,
                forall|j: int|
                    0 <= j < k ==> (#[trigger] path@[j]).0 == direction_of(
                        ancestor_index(total, leaf_index as int, j as nat),
                    ) && path@[j].1@ == self.nodes@[sibling_index(
                        ancestor_index(total, leaf_index as int, j as nat),
                    )]@,
                replay(entries_of(path@), self.nodes@[leaf_index as int]@) == self.nodes@[current as int]@,
            decreases tlv - 1 - k,
        {
            proof {
                lemma_level_shape(tlv, k);
                lemma_level_step(tlv, k);
                lemma_parent_step(tlv, k, p);
                lemma_fundamental_div_mod(p, 2);
                assert(link_ok(self.nodes@, tlv, k, p / 2));
            }
            let entry: (HashDirection, crate::Hash) = if current % 2 == 0 {
                (HashDirection::Right, copy_hash(&self.nodes[current + 1]))
            } else {
                (HashDirection::Left, copy_hash(&self.nodes[current - 1]))
            };
            let ghost old_path = path@;
            path.push(entry);
            let parent = self.parent_index(current);
            proof {
                assert(entries_of(path@) =~= entries_of(old_path).push((entry.0, entry.1@)));
                lemma_replay_push(
                    entries_of(old_path),
                    (entry.0, entry.1@),
                    self.nodes@[leaf_index as int]@,
                );
                k = k + 1;
                p = p / 2;
            }
            current = parent;
            step = step + 1;
        }
        proof {
            lemma_level_shape(tlv, k);
            assert(entries_of(path@) =~= path_entries(
                self.nodes@,
                leaf_index as int,
                (self.levels - 1) as nat,
            ));
        }
        Ok(Proof { hashes: path })
    }

    /// Generates the inclusion proof for the first leaf whose hash matches
    /// the given block, scanning the leaves from index zero.  Fails with
    /// `CantFindDataInMerkleTree` exactly when no leaf hash matches.
    pub fn get_merkle_proof_by_data(&self, data: &crate::Data) -> (r: Result<Proof, MerkleError>)
        requires
            self.wf(),
        ensures
            match r {
                Ok(p) => {
                    &&& exists|i: int|
                        (#[trigger] first_leaf_match(*self, data@, i)) && p.entries()
                            == path_entries(self.nodes@, i, (self.levels - 1) as nat)
                    &&& p.entries().len() == self.levels - 1
                    &&& replay(p.entries(), hash_leaf_spec(data@)) == self.root_view()
                },
                Err(e) => {
                    &&& e == MerkleError::CantFindDataInMerkleTree
                    &&& forall|i: int|
                        0 <= i < self.spec_num_leaves() ==> self.nodes@[i]@ != hash_leaf_spec(
                            data@,
                        )
                },
            },
    {
        let data_hash = hash_data(data);
        let leaf_vec = self.leaves();
        let num = leaf_vec.len();
        let mut j: usize = 0;
        while j < num
            invariant
                self.wf(),
                data_hash@ == hash_leaf_spec(data@),
                num as int == self.spec_num_leaves(),
                leaf_vec@.len() == num,
                forall|i: int| 0 <= i < num ==> leaf_vec@[i]@ == self.nodes@[i]@,
                0 <= j <= num,
                forall|i: int| 0 <= i < j ==> self.nodes@[i]@ != hash_leaf_spec(data@),
            decreases num - j,
        {
            if hashes_equal(&leaf_vec[j], &data_hash) {
                proof {
                    assert(first_leaf_match(*self, data@, j as int));
                }
                return self.get_merkle_proof_by_index(j);
            }
            j = j + 1;
        }
        Err(MerkleError::CantFindDataInMerkleTree)
    }
}

/// Climbing one level first and then `j` more reaches the same ancestor
/// as climbing `j + 1` levels at once.
pub proof fn lemma_ancestor_shift(len: int, i: int, j: nat)
    ensures
        ancestor_index(len, i, j + 1) == ancestor_index(len, parent_index_spec(len, i), j),
    decreases j,
{
    if j == 0 {
        assert(ancestor_index(len, i, 1) == parent_index_spec(len, ancestor_index(len, i, 0)));
    } else {
        lemma_ancestor_shift(len, i, (j - 1) as nat);
        assert(ancestor_index(len, i, j + 1) == parent_index_spec(
            len,
            ancestor_index(len, i, j),
        ));
        assert(ancestor_index(len, parent_index_spec(len, i), j) == parent_index_spec(
            len,
            ancestor_index(len, parent_index_spec(len, i), (j - 1) as nat),
        ));
    }
}

/// From any node of a well-formed tree, replaying the sibling path
/// recorded level by level reaches the root hash.
pub proof fn lemma_path_replay(t: MerkleTree, k: int, p: int)
    requires
        t.wf(),
        0 <= k <= t.levels - 1,
        0 <= p < level_len(t.levels as int, k),
    ensures
        replay(
            path_entries(
                t.nodes@,
                level_start(t.levels as int, k) + p,
                (t.levels - 1 - k) as nat,
            ),
            t.nodes@[level_start(t.levels as int, k) + p]@,
        ) == t.root_view(),
    decreases t.levels - 1 - k,
{
    let tlv = t.levels as int;
    let total = t.nodes@.len() as int;
    let c = level_start(tlv, k) + p;
    lemma_level_shape(tlv, k);
    if k == tlv - 1 {
        assert(path_entries(t.nodes@, c, 0) =~= Seq::<(HashDirection, Seq<u8>)>::empty());
    } else {
        lemma_level_step(tlv, k);
        lemma_parent_step(tlv, k, p);
        lemma_fundamental_div_mod(p, 2);
        assert(link_ok(t.nodes@, tlv, k, p / 2));
        let parent = parent_index_spec(total, c);
        let m = (tlv - 1 - k) as nat;
        let entries = path_entries(t.nodes@, c, m);
        assert(c % 2 == p % 2);
        assert(entries[0] == (direction_of(c), t.nodes@[sibling_index(c)]@));
        assert(apply_entry(t.nodes@[c]@, entries[0]) == t.nodes@[parent]@);
        assert forall|j: int| 0 <= j < m - 1 implies entries.skip(1)[j] == path_entries(
            t.nodes@,
            parent,
            (m - 1) as nat,
        )[j] by {
            lemma_ancestor_shift(total, c, j as nat);
        }
        assert(entries.skip(1) =~= path_entries(t.nodes@, parent, (m - 1) as nat));
        lemma_path_replay(t, k + 1, p / 2);
        assert(parent == level_start(tlv, k + 1) + p / 2);
    }
}

/// Law: for every leaf index within range, the proof whose entries are
/// the recorded siblings of that leaf verifies against the tree's root
/// hash and the block the leaf was built from.
pub proof fn lemma_index_proof_verifies(
    t: MerkleTree,
    blocks: Seq<Seq<u8>>,
    i: int,
    entries: Seq<(HashDirection, Seq<u8>)>,
)
    requires
        t.wf(),
        blocks.len() == t.spec_num_leaves(),
        forall|j: int| 0 <= j < blocks.len() ==> t.nodes@[j]@ == hash_leaf_spec(blocks[j]),
        0 <= i < t.spec_num_leaves(),
        entries == path_entries(t.nodes@, i, (t.levels - 1) as nat),
    ensures
        spec_proof_valid(entries, blocks[i], t.root_view()),
{
    lemma_level_shape(t.levels as int, 0);
    lemma_path_replay(t, 0, i);
}

/// Checks an inclusion proof: replays every recorded sibling against the
/// block's hash and compares the outcome to the expected root hash.
pub fn verify_merkle_proof(proof_path: &Proof, data: &crate::Data, root_hash: &crate::Hash) -> (r: bool)
    ensures
        r == spec_proof_valid(proof_path.entries(), data@, root_hash@),
{
    let mut current: crate::Hash = hash_data(data);
    let mut j: usize = 0;
    proof {
        assert(proof_path.entries().skip(0) =~= proof_path.entries());
    }
    while j < proof_path.hashes.len()
        invariant
            0 <= j <= proof_path.hashes@.len(),
            replay(proof_path.entries().skip(j as int), current@) == replay(
                proof_path.entries(),
                hash_leaf_spec(data@),
            ),
        decreases proof_path.hashes@.len() - j,
    {
        let entry = &proof_path.hashes[j];
        proof {
            assert(proof_path.entries().skip(j as int).skip(1) =~= proof_path.entries().skip(
                j as int + 1,
            ));
            assert(proof_path.entries()[j as int] == (entry.0, entry.1@));
        }
        current = match entry.0 {
            HashDirection::Left => MerkleTree::hash_concat(&entry.1, &current),
            HashDirection::Right => MerkleTree::hash_concat(&current, &entry.1),
        };
        j = j + 1;
    }
    proof {
        assert(proof_path.entries().skip(j as int) =~= Seq::<(HashDirection, Seq<u8>)>::empty());
    }
    hashes_equal(&current, root_hash)
}

} // verus!
