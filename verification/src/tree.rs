//! The Merkle tree itself: construction and read access.
//!
//! A tree over `n` blocks (`n` a power of two) stores `2*n - 1` hashes in
//! one flat array, level by level: the `n` leaf hashes first, then `n/2`
//! parents, and so on up to the single root at the very end.  Level `k`
//! (counting from the leaves) holds `n / 2^k` hashes and starts at offset
//! `2*n - 2*(n / 2^k)`.

use crate::error::MerkleError;
use crate::hashing::digest;
use crate::hashing::hash_data;
use crate::hashing::hash_leaf_spec;
use crate::hashing::hash_pair_spec;
use crate::hashing::hash_to_str;
use crate::hashing::hashes_equal;
use crate::hashing::hex_of;
use crate::hashing::copy_hash;
use vstd::arithmetic::div_mod::lemma_fundamental_div_mod;
use vstd::arithmetic::div_mod::lemma_fundamental_div_mod_converse;
use vstd::arithmetic::power2::lemma2_to64;
use vstd::arithmetic::power2::lemma_pow2_pos;
use vstd::arithmetic::power2::lemma_pow2_strictly_increases;
use vstd::arithmetic::power2::lemma_pow2_unfold;
use vstd::arithmetic::power2::pow2;
use vstd::prelude::*;

verus! {

/// Whether `n` is a positive power of two.
pub open spec fn spec_is_power_of_two(n: int) -> bool
    decreases n,
{
    if n <= 0 {
        false
    } else if n == 1 {
        true
    } else {
        n % 2 == 0 && spec_is_power_of_two(n / 2)
    }
}

/// The byte sequences held by a sequence of byte vectors.
pub open spec fn views_of(vs: Seq<Vec<u8>>) -> Seq<Seq<u8>> {
    Seq::new(vs.len(), |i: int| vs[i]@)
}

/// One pairing round: adjacent hashes of a level, combined left to right.
pub open spec fn level_up_spec(level: Seq<Seq<u8>>) -> Seq<Seq<u8>> {
    Seq::new((level.len() / 2) as nat, |p: int| hash_pair_spec(level[2 * p], level[2 * p + 1]))
}

/// The single hash a level folds up to after repeated pairing rounds.
pub open spec fn root_of(level: Seq<Seq<u8>>) -> Seq<u8>
    decreases level.len(),
{
    if level.len() <= 1 {
        if level.len() == 1 {
            level[0]
        } else {
            Seq::empty()
        }
    } else {
        root_of(level_up_spec(level))
    }
}

/// The root hash of the tree built over the given blocks.
pub open spec fn merkle_root_of(blocks: Seq<Seq<u8>>) -> Seq<u8> {
    root_of(blocks.map_values(|b: Seq<u8>| hash_leaf_spec(b)))
}

/// What a rebuild-and-compare check of `candidate` against `blocks` yields.
pub open spec fn spec_verify(blocks: Seq<Seq<u8>>, candidate: Seq<u8>) -> bool {
    spec_is_power_of_two(blocks.len() as int) && merkle_root_of(blocks) == candidate
}

/// How many hashes level `k` holds, in a tree with the given level count.
pub open spec fn level_len(levels: int, k: int) -> int {
    pow2((levels - 1 - k) as nat) as int
}

/// The offset in the flat node array where level `k` starts.
pub open spec fn level_start(levels: int, k: int) -> int {
    2 * pow2((levels - 1) as nat) as int - 2 * level_len(levels, k)
}

/// Node `p` of level `k + 1` is the pair hash of its two children on level
/// `k`, and all three sit inside the node array.
pub open spec fn link_ok(ns: Seq<Vec<u8>>, levels: int, k: int, p: int) -> bool {
    let child = level_start(levels, k) + 2 * p;
    let parent = level_start(levels, k + 1) + p;
    &&& 0 <= child
    &&& child + 1 < ns.len()
    &&& 0 <= parent < ns.len()
    &&& ns[parent]@ == hash_pair_spec(ns[child]@, ns[child + 1]@)
}

/// All parent/child links of the levels below level `k` are in place.
pub open spec fn links_upto(ns: Seq<Vec<u8>>, levels: int, k: int) -> bool {
    forall|k2: int, p2: int|
        0 <= k2 < k && 0 <= p2 < level_len(levels, k2 + 1) ==> #[trigger] link_ok(
            ns,
            levels,
            k2,
            p2,
        )
}

/// All parent/child links of the whole tree are in place.
pub open spec fn links_ok(ns: Seq<Vec<u8>>, levels: int) -> bool {
    links_upto(ns, levels, levels - 1)
}

/// The root hash of a tree, rendered as a hexadecimal string.
#[derive(Debug)]
pub struct MerkleRoot {
    pub hash: String,
}

/// A binary Merkle hash tree: the flat node array, all levels concatenated
/// leaves first and root last, the level count (leaf level and root level
/// both included), and the root rendered as text.
#[derive(Debug)]
pub struct MerkleTree {
    pub nodes: Vec<crate::Hash>,
    pub levels: usize,
    pub merkle_root: MerkleRoot,
}

impl MerkleTree {
    /// How many leaves the tree was built over.
    pub open spec fn spec_num_leaves(self) -> int {
        pow2((self.levels - 1) as nat) as int
    }

    /// The bytes of the root hash: the last entry of the node array.
    pub open spec fn root_view(self) -> Seq<u8> {
        self.nodes@[self.nodes@.len() - 1]@
    }

    /// The shape invariant: at least the root level exists, the node array
    /// holds exactly all levels of a full binary tree, and every inner node
    /// is the pair hash of its two children.
    pub open spec fn wf(self) -> bool {
        &&& 1 <= self.levels
        &&& self.nodes@.len() == 2 * self.spec_num_leaves() - 1
        &&& links_ok(self.nodes@, self.levels as int)
    }
}

/// Everything a level of a well-formed tree needs about its numbers:
/// the level is non-empty, sits inside the node array, and starts at an
/// even offset.
pub proof fn lemma_level_shape(levels: int, k: int)
    requires
        0 <= k <= levels - 1,
    ensures
        1 <= level_len(levels, k),
        0 <= level_start(levels, k),
        level_start(levels, k) % 2 == 0,
        level_start(levels, k) + level_len(levels, k) <= 2 * pow2((levels - 1) as nat) - 1,
        k < levels - 1 ==> level_len(levels, k) % 2 == 0,
        k == levels - 1 ==> level_len(levels, k) == 1 && level_start(levels, k) == 2 * pow2(
            (levels - 1) as nat,
        ) - 2,
{
    lemma_pow2_pos((levels - 1 - k) as nat);
    lemma_pow2_pos((levels - 1) as nat);
    lemma2_to64();
    if k < levels - 1 {
        lemma_pow2_unfold((levels - 1 - k) as nat);
        lemma_pow2_pos((levels - 2 - k) as nat);
    }
    if k > 0 {
        lemma_pow2_strictly_increases((levels - 1 - k) as nat, (levels - 1) as nat);
    }
}

/// Each level starts where the previous one ends and is half as long.
pub proof fn lemma_level_step(levels: int, k: int)
    requires
        0 <= k < levels - 1,
    ensures
        level_start(levels, k + 1) == level_start(levels, k) + level_len(levels, k),
        level_len(levels, k) == 2 * level_len(levels, k + 1),
{
    lemma_pow2_unfold((levels - 1 - k) as nat);
}

/// A level of length one can only be the top level.
pub proof fn lemma_top_level(levels: int, k: int)
    requires
        0 <= k <= levels - 1,
        level_len(levels, k) == 1,
    ensures
        k == levels - 1,
{
    lemma2_to64();
    if k < levels - 1 {
        lemma_pow2_strictly_increases(0, (levels - 1 - k) as nat);
    }
}

/// The flat-array index of the parent of node `i`, in an array of `len`
/// nodes laid out level by level.
pub open spec fn parent_index_spec(len: int, i: int) -> int {
    len - (len - i) / 2
}

/// Climbing from position `p` of level `k`, the parent formula lands on
/// position `p / 2` of level `k + 1`.
pub proof fn lemma_parent_step(levels: int, k: int, p: int)
    requires
        0 <= k < levels - 1,
        0 <= p < level_len(levels, k),
    ensures
        parent_index_spec(
            2 * pow2((levels - 1) as nat) as int - 1,
            level_start(levels, k) + p,
        ) == level_start(levels, k + 1) + p / 2,
{
    let total = 2 * pow2((levels - 1) as nat) as int - 1;
    let m = level_len(levels, k);
    let i = level_start(levels, k) + p;
    lemma_level_shape(levels, k);
    lemma_level_step(levels, k);
    lemma_fundamental_div_mod(p, 2);
    let q = p / 2;
    let rr = p % 2;
    assert(total - i == 2 * (m - 1 - q) + (1 - rr));
    lemma_fundamental_div_mod_converse(total - i, 2, m - 1 - q, 1 - rr);
}

/// Two to the `e` outgrows `e` itself.
pub proof fn lemma_pow2_exceeds_exp(e: nat)
    ensures
        pow2(e) > e,
    decreases e,
{
    lemma2_to64();
    if e >= 1 {
        lemma_pow2_exceeds_exp((e - 1) as nat);
        lemma_pow2_unfold(e);
    }
}

/// Links survive extending the node array or rewriting entries past its
/// old end.
pub proof fn lemma_links_extend(ns1: Seq<Vec<u8>>, ns2: Seq<Vec<u8>>, levels: int, k: int)
    requires
        ns1.len() <= ns2.len(),
        forall|i: int| 0 <= i < ns1.len() ==> ns2[i] == ns1[i],
        links_upto(ns1, levels, k),
    ensures
        links_upto(ns2, levels, k),
{
    assert forall|k2: int, p2: int|
        0 <= k2 < k && 0 <= p2 < level_len(levels, k2 + 1) implies #[trigger] link_ok(
        ns2,
        levels,
        k2,
        p2,
    ) by {
        assert(link_ok(ns1, levels, k2, p2));
    }
}

/// Whether `n` is a positive power of two, decided by repeated halving.
pub fn is_power_of_two(n: usize) -> (r: bool)
    ensures
        r == spec_is_power_of_two(n as int),
{
    if n == 0 {
        return false;
    }
    let mut m: usize = n;
    while m > 1
        invariant
            1 <= m,
            spec_is_power_of_two(n as int) == spec_is_power_of_two(m as int),
        decreases m,
    {
        if m % 2 == 1 {
            return false;
        }
        m = m / 2;
    }
    true
}

impl MerkleTree {
    /// The pair hash of two child hashes, left child first.
    pub(crate) fn hash_concat(h1: &crate::Hash, h2: &crate::Hash) -> (r: crate::Hash)
        ensures
            r@ == hash_pair_spec(h1@, h2@),
    {
        let mut combined: Vec<u8> = Vec::new();
        let mut i: usize = 0;
        while i < h1.len()
            invariant
                0 <= i <= h1@.len(),
                combined@ == h1@.subrange(0, i as int),
            decreases h1@.len() - i,
        {
            combined.push(h1[i]);
            assert(combined@ =~= h1@.subrange(0, (i + 1) as int));
            i = i + 1;
        }
        assert(combined@ =~= h1@);
        i = 0;
        while i < h2.len()
            invariant
                0 <= i <= h2@.len(),
                combined@ == h1@ + h2@.subrange(0, i as int),
            decreases h2@.len() - i,
        {
            combined.push(h2[i]);
            assert(combined@ =~= h1@ + h2@.subrange(0, (i + 1) as int));
            i = i + 1;
        }
        assert(combined@ =~= h1@ + h2@);
        hash_data(&combined)
    }

    /// One pairing round: the next level up from the given one.
    fn construct_level_up(level: &Vec<crate::Hash>) -> (r: Vec<crate::Hash>)
        requires
            level@.len() % 2 == 0,
        ensures
            r@.len() == level@.len() / 2,
            forall|p: int|
                0 <= p < r@.len() ==> r@[p]@ == hash_pair_spec(level@[2 * p]@, level@[2 * p + 1]@),
    {
        let half = level.len() / 2;
        proof {
            lemma_fundamental_div_mod(level@.len() as int, 2);
        }
        let mut r: Vec<crate::Hash> = Vec::new();
        let mut p: usize = 0;
        while p < half
            invariant
                2 * half == level@.len(),
                level@.len() <= usize::MAX,
                0 <= p <= half,
                r@.len() == p,
                forall|j: int|
                    0 <= j < p ==> r@[j]@ == hash_pair_spec(level@[2 * j]@, level@[2 * j + 1]@),
            decreases half - p,
        {
            let h = MerkleTree::hash_concat(&level[2 * p], &level[2 * p + 1]);
            r.push(h);
            p = p + 1;
        }
        r
    }

    /// Builds the tree over the given blocks: hashes every block into a
    /// leaf, then folds the levels pairwise, left to right, up to the
    /// root.  Fails with `InvalidLeafCount` exactly when the block count
    /// is zero or not a power of two.
    pub fn construct(datas: &Vec<crate::Data>) -> (r: Result<MerkleTree, MerkleError>)
        ensures
            match r {
                Ok(t) => {
                    &&& spec_is_power_of_two(datas@.len() as int)
                    &&& t.wf()
                    &&& t.spec_num_leaves() == datas@.len()
                    &&& t.nodes@.len() == 2 * datas@.len() - 1
                    &&& forall|i: int|
                        0 <= i < datas@.len() ==> t.nodes@[i]@ == hash_leaf_spec(datas@[i]@)
                    &&& t.root_view() == merkle_root_of(views_of(datas@))
                    &&& t.merkle_root.hash@ == hex_of(digest(t.root_view()))
                },
                Err(e) => {
                    &&& e == MerkleError::InvalidLeafCount
                    &&& !spec_is_power_of_two(datas@.len() as int)
                },
            },
    {
        let n = datas.len();
        if !is_power_of_two(n) {
            return Err(MerkleError::InvalidLeafCount);
        }
        proof {
            lemma2_to64();
        }
        // count the pairing rounds: n == 2^rounds
        let mut rest: usize = n;
        let mut rounds: usize = 0;
        while rest > 1
            invariant
                1 <= rest,
                spec_is_power_of_two(rest as int),
                n as int == rest as int * pow2(rounds as nat),
                pow2(rounds as nat) <= n as int,
                n <= usize::MAX,
            decreases rest,
        {
            proof {
                lemma_fundamental_div_mod(rest as int, 2);
                lemma_pow2_unfold(rounds as nat + 1);
                lemma_pow2_pos(rounds as nat);
                assert(rest as int == 2 * (rest as int / 2));
                assert(rest as int * pow2(rounds as nat) == (rest as int / 2) * (2 * pow2(
                    rounds as nat,
                ))) by (nonlinear_arith)
                    requires
                        rest as int == 2 * (rest as int / 2),
                ;
                assert((rest as int / 2) * pow2(rounds as nat + 1) >= pow2(rounds as nat + 1))
                    by (nonlinear_arith)
                    requires
                        rest as int / 2 >= 1,
                        pow2(rounds as nat + 1) > 0,
                ;
                lemma_pow2_exceeds_exp(rounds as nat);
            }
            rest = rest / 2;
            rounds = rounds + 1;
        }
        let ghost tlv: int = rounds as int + 1;
        proof {
            assert(n as int == pow2(rounds as nat));
            assert(level_len(tlv, 0) == n as int);
            assert(level_start(tlv, 0) == 0);
        }
        // the leaf level
        let mut cur: Vec<crate::Hash> = Vec::new();
        let mut nodes: Vec<crate::Hash> = Vec::new();
        let mut idx: usize = 0;
        while idx < n
            invariant
                n == datas@.len(),
                0 <= idx <= n,
                cur@.len() == idx,
                nodes@.len() == idx,
                forall|i: int| 0 <= i < idx ==> cur@[i]@ == hash_leaf_spec(datas@[i]@),
                forall|i: int| 0 <= i < idx ==> nodes@[i]@ == hash_leaf_spec(datas@[i]@),
            decreases n - idx,
        {
            let h = hash_data(&datas[idx]);
            let h2 = copy_hash(&h);
            cur.push(h);
            nodes.push(h2);
            idx = idx + 1;
        }
        proof {
            assert(views_of(cur@) =~= views_of(datas@).map_values(
                |b: Seq<u8>| hash_leaf_spec(b),
            ));
        }
        // fold level by level up to the root
        let mut start: usize = 0;
        let mut width: usize = n;
        let ghost mut k: int = 0;
        while width > 1
            invariant
                n == datas@.len(),
                1 <= tlv,
                n as int == pow2((tlv - 1) as nat),
                0 <= k <= tlv - 1,
                width as int == level_len(tlv, k),
                start as int == level_start(tlv, k),
                nodes@.len() == start as int + width as int,
                cur@.len() == width as int,
                forall|j: int| 0 <= j < width ==> cur@[j]@ == nodes@[start + j]@,
                forall|i: int| 0 <= i < n ==> nodes@[i]@ == hash_leaf_spec(datas@[i]@),
                links_upto(nodes@, tlv, k),
                root_of(views_of(cur@)) == merkle_root_of(views_of(datas@)),
            decreases width,
        {
            proof {
                lemma_level_shape(tlv, k);
                lemma_level_step(tlv, k);
            }
            let next = MerkleTree::construct_level_up(&cur);
            let ghost old_ns: Seq<Vec<u8>> = nodes@;
            let old_len = nodes.len();
            let mut q: usize = 0;
            while q < next.len()
                invariant
                    0 <= q <= next@.len(),
                    nodes@.len() == old_len as int + q as int,
                    old_len as int == old_ns.len(),
                    forall|i: int| 0 <= i < old_ns.len() ==> nodes@[i] == old_ns[i],
                    forall|j: int| 0 <= j < q ==> nodes@[old_len + j]@ == next@[j]@,
                decreases next@.len() - q,
            {
                let h = copy_hash(&next[q]);
                nodes.push(h);
                q = q + 1;
            }
            proof {
                lemma_links_extend(old_ns, nodes@, tlv, k);
                assert forall|k2: int, p2: int|
                    0 <= k2 < k + 1 && 0 <= p2 < level_len(tlv, k2 + 1) implies #[trigger] link_ok(
                    nodes@,
                    tlv,
                    k2,
                    p2,
                ) by {
                    if k2 == k {
                        lemma_level_step(tlv, k);
                        assert(nodes@[level_start(tlv, k + 1) + p2]@ == next@[p2]@);
                        assert(nodes@[level_start(tlv, k) + 2 * p2]@ == cur@[2 * p2]@);
                        assert(nodes@[level_start(tlv, k) + 2 * p2 + 1]@ == cur@[2 * p2 + 1]@);
                    } else {
                        assert(link_ok(nodes@, tlv, k2, p2));
                    }
                }
                assert(views_of(next@) =~= level_up_spec(views_of(cur@)));
                assert(n as int <= old_ns.len());
                assert forall|i: int| 0 <= i < n implies nodes@[i]@ == hash_leaf_spec(
                    datas@[i]@,
                ) by {
                    assert(nodes@[i] == old_ns[i]);
                }
                k = k + 1;
            }
            cur = next;
            start = start + width;
            width = width / 2;
        }
        proof {
            lemma_level_shape(tlv, k);
            lemma_top_level(tlv, k);
            lemma_pow2_exceeds_exp(rounds as nat);
        }
        let root_idx = nodes.len() - 1;
        let root_node = &nodes[root_idx];
        let root_text = hash_to_str(root_node.as_slice());
        let tree = MerkleTree {
            nodes,
            levels: rounds + 1,
            merkle_root: MerkleRoot { hash: root_text },
        };
        proof {
            assert(views_of(cur@)[0] == cur@[0]@);
            assert(tree.root_view() == merkle_root_of(views_of(datas@)));
        }
        Ok(tree)
    }

    /// How many data blocks the tree was built over.
    pub fn num_leaves(&self) -> (r: usize)
        requires
            self.wf(),
        ensures
            r as int == self.spec_num_leaves(),
    {
        proof {
            lemma_pow2_pos((self.levels - 1) as nat);
            lemma_fundamental_div_mod_converse(
                self.nodes@.len() as int,
                2,
                self.spec_num_leaves() - 1,
                1,
            );
        }
        self.nodes.len() / 2 + 1
    }

    /// The root hash: the last entry of the node array.
    pub fn root_hash(&self) -> (r: crate::Hash)
        requires
            self.nodes@.len() >= 1,
        ensures
            r@ == self.root_view(),
    {
        copy_hash(&self.nodes[self.nodes.len() - 1])
    }

    /// The leaf hashes: the first `num_leaves` entries of the node array.
    pub(crate) fn leaves(&self) -> (r: Vec<crate::Hash>)
        requires
            self.wf(),
        ensures
            r@.len() == self.spec_num_leaves(),
            forall|i: int| 0 <= i < r@.len() ==> r@[i]@ == self.nodes@[i]@,
    {
        let n = self.num_leaves();
        let mut r: Vec<crate::Hash> = Vec::new();
        let mut i: usize = 0;
        while i < n
            invariant
                n as int == self.spec_num_leaves(),
                self.nodes@.len() == 2 * self.spec_num_leaves() - 1,
                0 <= i <= n,
                r@.len() == i,
                forall|j: int| 0 <= j < i ==> r@[j]@ == self.nodes@[j]@,
            decreases n - i,
        {
            r.push(copy_hash(&self.nodes[i]));
            i = i + 1;
        }
        r
    }

    /// Rebuilds a tree over the blocks and compares its root hash with the
    /// candidate: true exactly when the count is a power of two and the
    /// roots agree.
    pub fn verify(datas: &Vec<crate::Data>, root_hash: &crate::Hash) -> (r: bool)
        ensures
            r == spec_verify(views_of(datas@), root_hash@),
    {
        match MerkleTree::construct(datas) {
            Ok(tree) => {
                proof {
                    lemma_pow2_pos((tree.levels - 1) as nat);
                }
                let rh = tree.root_hash();
                hashes_equal(&rh, root_hash)
            },
            Err(_) => false,
        }
    }

    /// Builds the tree over the given blocks and hands back only its root,
    /// rendered as a hexadecimal string.
    pub fn mekle_tree_return(datas: Vec<Vec<u8>>) -> (r: MerkleRoot)
        requires
            spec_is_power_of_two(datas@.len() as int),
        ensures
            r.hash@ == hex_of(digest(merkle_root_of(views_of(datas@)))),
    {
        match MerkleTree::construct(&datas) {
            Ok(tree) => tree.merkle_root,
            Err(_) => {
                // a power-of-two block count always constructs
                proof {
                    assert(false);
                }
                MerkleRoot { hash: String::new() }
            },
        }
    }
}

/// Law: against a power-of-two block sequence, the rebuild check accepts
/// the root of the tree built over those blocks, and rejects every other
/// candidate hash.
pub proof fn lemma_verify_of_own_root(blocks: Seq<Seq<u8>>, candidate: Seq<u8>)
    requires
        spec_is_power_of_two(blocks.len() as int),
    ensures
        spec_verify(blocks, merkle_root_of(blocks)),
        spec_verify(blocks, candidate) == (candidate == merkle_root_of(blocks)),
{
}

} // verus!

