//! Merkle commitments over BLAKE3 digests.
//!
//! A tree level is a sequence of 32-byte digests; a parent node is the
//! digest of the concatenation of its two children, and a level of odd
//! length duplicates its last element (it is not promoted). An
//! authentication path climbs from a leaf to the root, hashing with the
//! recorded sibling on the side given by the parity of the index.

use vstd::prelude::*;

use crate::bytes_util::copy_bytes;
use crate::bytes_util::push_bytes;
use crate::crypto::digest;
use crate::crypto::hash_of;

verus! {

/// An authentication path for one leaf of the tree.
#[derive(Clone, Debug)]
pub struct MerkleProof {
    pub root: Vec<u8>,
    pub index: u32,
    pub path: Vec<Vec<u8>>,
}

/// The sequence of byte strings a vector of byte vectors stands for.
pub open spec fn digests_view(v: Seq<Vec<u8>>) -> Seq<Seq<u8>> {
    v.map_values(|d: Vec<u8>| d@)
}

/// The all-zero digest used as the root of an empty tree.
pub open spec fn zero_digest() -> Seq<u8> {
    Seq::new(32, |i: int| 0u8)
}

/// A parent node: the digest of the two children in order.
pub open spec fn node_hash(l: Seq<u8>, r: Seq<u8>) -> Seq<u8> {
    hash_of(l + r)
}

/// One level up the tree: pairs are hashed left-to-right, and an odd tail
/// is paired with itself.
pub open spec fn next_level(level: Seq<Seq<u8>>) -> Seq<Seq<u8>> {
    Seq::new(
        ((level.len() + 1) / 2) as nat,
        |i: int|
            node_hash(
                level[2 * i],
                if 2 * i + 1 < level.len() {
                    level[2 * i + 1]
                } else {
                    level[2 * i]
                },
            ),
    )
}

/// The Merkle root of a level of digests.
pub open spec fn root_of(level: Seq<Seq<u8>>) -> Seq<u8>
    decreases level.len(),
{
    if level.len() == 0 {
        zero_digest()
    } else if level.len() == 1 {
        level[0]
    } else {
        root_of(next_level(level))
    }
}

/// Climb an authentication path from `leaf` at position `idx`: at each
/// step the current node is the left child when the index is even, and
/// the index is halved.
pub open spec fn climb(leaf: Seq<u8>, idx: nat, path: Seq<Seq<u8>>) -> Seq<u8>
    decreases path.len(),
{
    if path.len() == 0 {
        leaf
    } else {
        let joined = if idx % 2 == 0 {
            node_hash(leaf, path[0])
        } else {
            node_hash(path[0], leaf)
        };
        climb(joined, idx / 2, path.drop_first())
    }
}

/// Hash two nodes into their parent.
fn node_hash_exec(l: &Vec<u8>, r: &Vec<u8>) -> (h: Vec<u8>)
    ensures
        h@ == node_hash(l@, r@),
        h@.len() == 32,
{
    let mut joined: Vec<u8> = Vec::new();
    push_bytes(&mut joined, l.as_slice());
    push_bytes(&mut joined, r.as_slice());
    digest(joined.as_slice())
}

/// Compute one level up the tree.
fn build_next_level(level: &Vec<Vec<u8>>) -> (next: Vec<Vec<u8>>)
    requires
        level@.len() >= 1,
    ensures
        digests_view(next@) == next_level(digests_view(level@)),
        next@.len() == (level@.len() + 1) / 2,
{
    let mut next: Vec<Vec<u8>> = Vec::new();
    let mut i: usize = 0;
    while i < level.len()
        invariant
            i % 2 == 0 || i == level@.len(),
            i <= level@.len(),
            next@.len() == (i + 1) / 2,
            forall|j: int|
                0 <= j < next@.len() ==> next@[j]@ == next_level(digests_view(level@))[j],
        decreases level@.len() - i,
    {
        let l = &level[i];
        if i + 1 < level.len() {
            let h = node_hash_exec(l, &level[i + 1]);
            next.push(h);
            i = i + 2;
        } else {
            let h = node_hash_exec(l, l);
            next.push(h);
            i = level.len();
        }
    }
    assert(digests_view(next@) =~= next_level(digests_view(level@)));
    next
}

/// The Merkle root of `leaves`; the all-zero digest for no leaves.
pub fn merkle_root(leaves: &Vec<Vec<u8>>) -> (r: Vec<u8>)
    ensures
        r@ == root_of(digests_view(leaves@)),
    decreases leaves@.len(),
{
    if leaves.len() == 0 {
        let z: Vec<u8> = vec![0u8; 32];
        assert(z@ =~= zero_digest());
        z
    } else if leaves.len() == 1 {
        copy_bytes(&leaves[0])
    } else {
        let next = build_next_level(leaves);
        merkle_root(&next)
    }
}

/// The authentication path for leaf `idx`, bottom sibling first.
pub fn merkle_proof(leaves: &Vec<Vec<u8>>, idx: usize) -> (path: Vec<Vec<u8>>)
    requires
        idx < leaves@.len(),
    ensures
        climb(digests_view(leaves@)[idx as int], idx as nat, digests_view(path@)) == root_of(
            digests_view(leaves@),
        ),
    decreases leaves@.len(),
{
    if leaves.len() == 1 {
        let path: Vec<Vec<u8>> = Vec::new();
        assert(digests_view(path@) =~= Seq::<Seq<u8>>::empty());
        path
    } else {
        let sib: Vec<u8> = if idx % 2 == 0 {
            if idx + 1 < leaves.len() {
                copy_bytes(&leaves[idx + 1])
            } else {
                copy_bytes(&leaves[idx])
            }
        } else {
            copy_bytes(&leaves[idx - 1])
        };
        let ghost sib_view = sib@;
        let next = build_next_level(leaves);
        let mut path = merkle_proof(&next, idx / 2);
        let ghost upper_view = digests_view(path@);
        path.insert(0, sib);
        proof {
            let lv = digests_view(leaves@);
            let full = digests_view(path@);
            assert(full.drop_first() =~= upper_view);
            assert(full[0] == sib_view);
            let parent = next_level(lv)[idx as int / 2];
            assert(2 * (idx as int / 2) == if idx % 2 == 0 {
                idx as int
            } else {
                idx as int - 1
            });
            assert(climb(lv[idx as int], idx as nat, full) == climb(
                parent,
                (idx / 2) as nat,
                upper_view,
            ));
        }
        path
    }
}

/// Whether `p` authenticates the leaf digest `leaf` under `p.root`.
pub fn proof_verify(p: &MerkleProof, leaf: Vec<u8>) -> (r: bool)
    ensures
        r == (climb(leaf@, p.index as nat, digests_view(p.path@)) == p.root@),
{
    let ghost leaf_view = leaf@;
    let mut cur = leaf;
    let mut idx_cur: u64 = p.index as u64;
    let mut i: usize = 0;
    proof {
        assert(digests_view(p.path@).subrange(0, p.path@.len() as int) =~= digests_view(p.path@));
    }
    while i < p.path.len()
        invariant
            i <= p.path@.len(),
            climb(leaf_view, p.index as nat, digests_view(p.path@)) == climb(
                cur@,
                idx_cur as nat,
                digests_view(p.path@).subrange(i as int, p.path@.len() as int),
            ),
        decreases p.path@.len() - i,
    {
        let ghost before = digests_view(p.path@).subrange(i as int, p.path@.len() as int);
        let sib = &p.path[i];
        let joined = if idx_cur % 2 == 0 {
            node_hash_exec(&cur, sib)
        } else {
            node_hash_exec(sib, &cur)
        };
        cur = joined;
        idx_cur = idx_cur / 2;
        i = i + 1;
        proof {
            assert(before[0] == digests_view(p.path@)[i - 1]);
            assert(before.drop_first() =~= digests_view(p.path@).subrange(
                i as int,
                p.path@.len() as int,
            ));
        }
    }
    proof {
        assert(digests_view(p.path@).subrange(p.path@.len() as int, p.path@.len() as int)
            =~= Seq::<Seq<u8>>::empty());
    }
    crate::bytes_util::bytes_eq(&cur, &p.root)
}

} // verus!
