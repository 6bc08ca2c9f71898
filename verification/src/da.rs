//! Erasure-coded data availability.
//!
//! A payload is split into `k` equal-length data shards (zero-padded, one
//! byte at minimum), extended with `m` Reed–Solomon parity shards, and
//! committed to by a Merkle root over the shard digests. Any `k` distinct
//! proof-checked shards reconstruct the payload: the data shards are
//! concatenated and the zero padding trimmed, which recovers the payload
//! exactly whenever it does not itself end in a zero byte.

use vstd::prelude::*;

use crate::bytes_util::copy_bytes;
use crate::bytes_util::lemma_trim_padding;
use crate::bytes_util::spec_trim_zeros;
use crate::bytes_util::trim_zeros;
use crate::crypto::digest;
use crate::crypto::hash_of;
use crate::merkle::MerkleProof;
use crate::merkle::climb;
use crate::merkle::digests_view;
use crate::merkle::merkle_proof;
use crate::merkle::merkle_root;
use crate::merkle::root_of;

verus! {

/// One erasure-coded piece of a payload, with its authentication path.
#[derive(Clone, Debug)]
pub struct Shard {
    pub index: u32,
    pub k: u32,
    pub m: u32,
    pub bytes: Vec<u8>,
    pub proof: MerkleProof,
}

/// A witness that a quorum of validators committed to deliver the payload
/// behind `merkle_root`.
#[derive(Clone, Debug)]
pub struct DaProof {
    pub ready_signers: Vec<u32>,
    pub merkle_root: Vec<u8>,
    pub k: u32,
    pub m: u32,
}

/// Why an encode request was refused.
#[derive(Clone, Copy, Debug, PartialEq, Eq, Structural)]
pub enum DaError {
    /// `k` and `m` must both be positive with `k + m` at most 256.
    BadParams,
}

/// `n` zero bytes.
pub open spec fn zeros(n: int) -> Seq<u8> {
    Seq::new(n as nat, |i: int| 0u8)
}

/// The common shard length for a payload of `plen` bytes split `k` ways:
/// the rounded-up quotient, one byte at minimum.
pub open spec fn shard_len_of(plen: int, k: int) -> int {
    let l = (plen + k - 1) / k;
    if l < 1 {
        1
    } else {
        l
    }
}

/// The payload zero-padded to fill `k` data shards.
pub open spec fn padded_payload(payload: Seq<u8>, k: int) -> Seq<u8> {
    payload + zeros(k * shard_len_of(payload.len() as int, k) - payload.len())
}

/// The `k` data shards of a payload: consecutive equal-length slices of
/// the padded payload.
pub open spec fn data_shards(payload: Seq<u8>, k: int) -> Seq<Seq<u8>> {
    let l = shard_len_of(payload.len() as int, k);
    Seq::new(k as nat, |i: int| padded_payload(payload, k).subrange(i * l, (i + 1) * l))
}

/// The `m` parity shards that Reed–Solomon coding over GF(2^8) derives
/// from `k` equal-length data shards: a function of `(k, m)` and the data
/// alone.
pub uninterp spec fn rs_parity(k: int, m: int, data: Seq<Seq<u8>>) -> Seq<Seq<u8>>;

/// The full codeword: data shards followed by parity shards.
pub open spec fn rs_codeword(k: int, m: int, data: Seq<Seq<u8>>) -> Seq<Seq<u8>> {
    data + rs_parity(k, m, data)
}

/// The codeword a payload is encoded to.
pub open spec fn codeword_of(payload: Seq<u8>, k: int, m: int) -> Seq<Seq<u8>> {
    rs_codeword(k, m, data_shards(payload, k))
}

/// Relies on `reed_solomon_erasure::galois_8::ReedSolomon::{new, encode_sep}`:
/// for `0 < k`, `0 < m`, `k + m <= 256` and `k` equal-length non-empty data
/// shards it computes `m` parity shards of the same length, a deterministic
/// function of `(k, m)` and the data; the data shards are read only.
#[verifier::external_body]
fn rs_make_parity(k: usize, m: usize, data: &Vec<Vec<u8>>) -> (parity: Vec<Vec<u8>>)
    requires
        1 <= k,
        1 <= m,
        k + m <= 256,
        data@.len() == k,
        forall|i: int| 0 <= i < k ==> (#[trigger] data@[i])@.len() == data@[0]@.len(),
        data@[0]@.len() >= 1,
    ensures
        digests_view(parity@) == rs_parity(k as int, m as int, digests_view(data@)),
        parity@.len() == m,
        forall|i: int| 0 <= i < m ==> parity@[i]@.len() == data@[0]@.len(),
{
    let rs = match reed_solomon_erasure::galois_8::ReedSolomon::new(k, m) {
        Ok(rs) => rs,
        Err(_) => return Vec::new(),
    };
    let mut parity = vec![vec![0u8; data[0].len()]; m];
    let _ = rs.encode_sep(data.as_slice(), parity.as_mut_slice());
    parity
}

/// How many entries of `s` are present.
pub open spec fn present_count(s: Seq<Option<Vec<u8>>>) -> int
    decreases s.len(),
{
    if s.len() == 0 {
        0
    } else {
        present_count(s.drop_last()) + if s.last() is Some {
            1int
        } else {
            0int
        }
    }
}

/// The present entries of `s` all agree with the codeword `cw`.
pub open spec fn agrees_with(s: Seq<Option<Vec<u8>>>, cw: Seq<Seq<u8>>) -> bool {
    forall|i: int|
        0 <= i < s.len() ==> match #[trigger] s[i] {
            Some(v) => v@ == cw[i],
            None => true,
        }
}

/// Relies on `reed_solomon_erasure::galois_8::ReedSolomon::{new, reconstruct}`:
/// given `k + m` slots of which at least `k` are filled, it fills the rest;
/// a Reed–Solomon code determines the whole codeword from any `k` of its
/// shards, so when every filled slot agrees with the encoding of some data,
/// the call succeeds and every slot ends up holding that encoding. On
/// failure nothing is touched; on success filled slots keep their value.
#[verifier::external_body]
fn rs_reconstruct(k: usize, m: usize, slots: &mut Vec<Option<Vec<u8>>>) -> (ok: bool)
    requires
        1 <= k,
        1 <= m,
        k + m <= 256,
        old(slots)@.len() == k + m,
    ensures
        !ok ==> final(slots)@ == old(slots)@,
        ok ==> present_count(old(slots)@) >= k,
        ok ==> final(slots)@.len() == old(slots)@.len(),
        ok ==> forall|i: int|
            0 <= i < old(slots)@.len() && old(slots)@[i] is Some ==> final(slots)@[i] == old(
                slots,
            )@[i],
        forall|data: Seq<Seq<u8>>|
            #![trigger rs_codeword(k as int, m as int, data)]
            (data.len() == k && data[0].len() >= 1 && (forall|i: int|
                0 <= i < data.len() ==> (#[trigger] data[i]).len() == data[0].len())
                && present_count(
                old(slots)@,
            ) >= k && agrees_with(old(slots)@, rs_codeword(k as int, m as int, data))) ==> (ok
                && (forall|i: int|
                0 <= i < final(slots)@.len() ==> match #[trigger] final(slots)@[i] {
                    Some(v) => v@ == rs_codeword(k as int, m as int, data)[i],
                    None => false,
                })),
{
    let rs = match reed_solomon_erasure::galois_8::ReedSolomon::new(k, m) {
        Ok(rs) => rs,
        Err(_) => return false,
    };
    rs.reconstruct(slots.as_mut_slice()).is_ok()
}

/// Filling an empty slot raises the present count by one.
proof fn lemma_present_count_update(s: Seq<Option<Vec<u8>>>, i: int, e: Option<Vec<u8>>)
    requires
        0 <= i < s.len(),
        s[i] is None,
        e is Some,
    ensures
        present_count(s.update(i, e)) == present_count(s) + 1,
    decreases s.len(),
{
    let t = s.update(i, e);
    if i == s.len() - 1 {
        assert(t.drop_last() =~= s.drop_last());
    } else {
        assert(t.drop_last() =~= s.drop_last().update(i, e));
        assert(t.last() == s.last());
        lemma_present_count_update(s.drop_last(), i, e);
    }
}

/// A sequence of empty slots has present count zero.
proof fn lemma_present_count_none(s: Seq<Option<Vec<u8>>>)
    requires
        forall|j: int| 0 <= j < s.len() ==> s[j] is None,
    ensures
        present_count(s) == 0,
    decreases s.len(),
{
    if s.len() > 0 {
        lemma_present_count_none(s.drop_last());
    }
}

/// Encode `payload` into `k + m` shards carrying authentication paths
/// against one Merkle root.
///
/// Succeeds exactly when `0 < k`, `0 < m` and `k + m <= 256`; the shards
/// are the codeword of the payload in index order, and every shard's path
/// authenticates its bytes' digest under the common root.
pub fn encode(payload: &Vec<u8>, k: u32, m: u32) -> (r: Result<Vec<Shard>, DaError>)
    requires
        payload@.len() + k <= usize::MAX,
    ensures
        r is Ok <==> (1 <= k && 1 <= m && k + m <= 256),
        r matches Ok(shards) ==> {
            let cw = codeword_of(payload@, k as int, m as int);
            &&& shards@.len() == k + m
            &&& forall|i: int|
                0 <= i < shards@.len() ==> {
                    let s = #[trigger] shards@[i];
                    &&& s.index == i
                    &&& s.k == k
                    &&& s.m == m
                    &&& s.bytes@ == cw[i]
                    &&& s.bytes@.len() == shard_len_of(payload@.len() as int, k as int)
                    &&& s.proof.index == i
                    &&& s.proof.root@ == root_of(cw.map_values(|b: Seq<u8>| hash_of(b)))
                    &&& climb(hash_of(s.bytes@), i as nat, digests_view(s.proof.path@))
                        == s.proof.root@
                }
        },
{
    if k == 0 || m == 0 {
        return Err(DaError::BadParams);
    }
    if k > 256 || m > 256 || k + m > 256 {
        return Err(DaError::BadParams);
    }
    let ku = k as usize;
    let mu = m as usize;
    let plen = payload.len();
    let mut l: usize = (plen + ku - 1) / ku;
    if l == 0 {
        l = 1;
    }
    assert(l == shard_len_of(payload@.len() as int, k as int));
    let ghost padded = padded_payload(payload@, k as int);
    assert(ku * l >= plen && ku * l <= plen + ku) by (nonlinear_arith)
        requires
            ku >= 1,
            l >= 1,
            plen >= 0,
            (l == (plen as int + ku as int - 1) / (ku as int) && l >= 1) || (l == 1 && (plen as int
                + ku as int - 1) / (ku as int) == 0),
    ;

    // The data shards: consecutive l-byte slices of the padded payload.
    let mut data: Vec<Vec<u8>> = Vec::new();
    let mut i: usize = 0;
    while i < ku
        invariant
            i <= ku,
            1 <= ku,
            1 <= l,
            ku * l <= usize::MAX,
            plen <= ku * l,
            plen == payload@.len(),
            padded == padded_payload(payload@, k as int),
            padded.len() == ku * l,
            l == shard_len_of(payload@.len() as int, k as int),
            data@.len() == i,
            forall|j: int| 0 <= j < i ==> data@[j]@ == padded.subrange(j * l, (j + 1) * l),
            forall|j: int| 0 <= j < i ==> data@[j]@.len() == l,
        decreases ku - i,
    {
        let mut shard: Vec<u8> = Vec::new();
        proof {
            assert(0 <= i as int * l && i as int * l + l <= ku as int * l) by (nonlinear_arith)
                requires
                    0 <= i < ku,
                    l >= 0,
            ;
        }
        let base = i * l;
        let mut j: usize = 0;
        while j < l
            invariant
                j <= l,
                base == i as int * l,
                base + l <= ku * l,
                ku * l <= usize::MAX,
                plen <= ku * l,
                plen == payload@.len(),
                padded.len() == ku * l,
                padded == padded_payload(payload@, k as int),
                shard@.len() == j,
                forall|t: int| 0 <= t < j ==> shard@[t] == padded[base + t],
            decreases l - j,
        {
            let idx = base + j;
            if idx < plen {
                let b = payload[idx];
                assert(padded[idx as int] == b);
                shard.push(b);
            } else {
                assert(padded[idx as int] == 0u8);
                shard.push(0u8);
            }
            j = j + 1;
        }
        proof {
            assert((i as int + 1) * l == i as int * l + l) by (nonlinear_arith);
        }
        assert(shard@ =~= padded.subrange(i as int * l, (i as int + 1) * l));
        data.push(shard);
        i = i + 1;
    }
    assert(digests_view(data@) =~= data_shards(payload@, k as int));

    // Parity shards from the Reed-Solomon code.
    let parity = rs_make_parity(ku, mu, &data);
    let mut word: Vec<Vec<u8>> = data;
    let mut pi: usize = 0;
    let ghost cw = codeword_of(payload@, k as int, m as int);
    while pi < parity.len()
        invariant
            pi <= parity@.len(),
            parity@.len() == mu,
            digests_view(parity@) == rs_parity(ku as int, mu as int, data_shards(payload@, k as int)),
            cw == codeword_of(payload@, k as int, m as int),
            ku == k && mu == m,
            word@.len() == ku + pi,
            l == shard_len_of(payload@.len() as int, k as int),
            forall|j: int| 0 <= j < word@.len() ==> word@[j]@ == cw[j],
            forall|j: int| 0 <= j < word@.len() ==> (#[trigger] word@[j])@.len() == l,
            forall|j: int| 0 <= j < parity@.len() ==> (#[trigger] parity@[j])@.len() == l,
        decreases parity@.len() - pi,
    {
        let p = copy_bytes(&parity[pi]);
        assert(p@ == digests_view(parity@)[pi as int]);
        word.push(p);
        pi = pi + 1;
    }
    assert(word@.len() == ku + mu);

    // Merkle commitment over the shard digests.
    let mut leaves: Vec<Vec<u8>> = Vec::new();
    let mut li: usize = 0;
    while li < word.len()
        invariant
            li <= word@.len(),
            leaves@.len() == li,
            forall|j: int| 0 <= j < word@.len() ==> word@[j]@ == cw[j],
            l == shard_len_of(payload@.len() as int, k as int),
            forall|j: int| 0 <= j < word@.len() ==> (#[trigger] word@[j])@.len() == l,
            word@.len() == ku + mu,
            cw == codeword_of(payload@, k as int, m as int),
            forall|j: int| 0 <= j < li ==> leaves@[j]@ == hash_of(word@[j]@),
        decreases word@.len() - li,
    {
        let d = digest(word[li].as_slice());
        leaves.push(d);
        li = li + 1;
    }
    assert(digests_view(leaves@) =~= cw.map_values(|b: Seq<u8>| hash_of(b)));
    let root = merkle_root(&leaves);

    let mut out: Vec<Shard> = Vec::new();
    let mut si: usize = 0;
    while si < word.len()
        invariant
            si <= word@.len(),
            word@.len() == ku + mu,
            ku == k && mu == m,
            ku + mu <= 256,
            leaves@.len() == word@.len(),
            forall|j: int| 0 <= j < word@.len() ==> word@[j]@ == cw[j],
            l == shard_len_of(payload@.len() as int, k as int),
            forall|j: int| 0 <= j < word@.len() ==> (#[trigger] word@[j])@.len() == l,
            forall|j: int| 0 <= j < word@.len() ==> leaves@[j]@ == hash_of(word@[j]@),
            cw == codeword_of(payload@, k as int, m as int),
            root@ == root_of(digests_view(leaves@)),
            digests_view(leaves@) == cw.map_values(|b: Seq<u8>| hash_of(b)),
            out@.len() == si,
            forall|j: int|
                0 <= j < si ==> {
                    let s = #[trigger] out@[j];
                    &&& s.index == j
                    &&& s.k == k
                    &&& s.m == m
                    &&& s.bytes@ == cw[j]
                    &&& s.bytes@.len() == shard_len_of(payload@.len() as int, k as int)
                    &&& s.proof.index == j
                    &&& s.proof.root@ == root_of(cw.map_values(|b: Seq<u8>| hash_of(b)))
                    &&& climb(hash_of(s.bytes@), j as nat, digests_view(s.proof.path@))
                        == s.proof.root@
                },
        decreases word@.len() - si,
    {
        let path = merkle_proof(&leaves, si);
        let proof = MerkleProof { root: copy_bytes(&root), index: si as u32, path };
        let bytes = copy_bytes(&word[si]);
        out.push(Shard { index: si as u32, k, m, bytes, proof });
        si = si + 1;
    }
    Ok(out)
}

/// How many of the first `p` pieces carry an index below `total`.
pub open spec fn count_in_range(pieces: Seq<(u32, Vec<u8>)>, p: int, total: int) -> int
    decreases p,
{
    if p <= 0 {
        0
    } else {
        count_in_range(pieces, p - 1, total) + if pieces[p - 1].0 < total {
            1int
        } else {
            0int
        }
    }
}

/// When every piece is in range, the in-range count is the piece count.
proof fn lemma_count_all_in_range(pieces: Seq<(u32, Vec<u8>)>, p: int, total: int)
    requires
        0 <= p <= pieces.len(),
        forall|i: int| 0 <= i < pieces.len() ==> (#[trigger] pieces[i]).0 < total,
    ensures
        count_in_range(pieces, p, total) == p,
    decreases p,
{
    if p > 0 {
        lemma_count_all_in_range(pieces, p - 1, total);
    }
}

/// The concatenation of the first `n` slot values (empty slots count as
/// empty).
pub open spec fn concat_slots(s: Seq<Option<Vec<u8>>>, n: int) -> Seq<u8>
    decreases n,
{
    if n <= 0 {
        Seq::empty()
    } else {
        concat_slots(s, n - 1) + match s[n - 1] {
            Some(v) => v@,
            None => Seq::empty(),
        }
    }
}

/// Slots holding consecutive `l`-slices of `base` concatenate to the
/// corresponding prefix of `base`.
proof fn lemma_concat_slots_eq(s: Seq<Option<Vec<u8>>>, base: Seq<u8>, l: int, n: int)
    requires
        0 <= n <= s.len(),
        l >= 0,
        n * l <= base.len(),
        forall|j: int|
            0 <= j < n ==> match #[trigger] s[j] {
                Some(v) => v@ == base.subrange(j * l, (j + 1) * l),
                None => false,
            },
    ensures
        concat_slots(s, n) == base.subrange(0, n * l),
    decreases n,
{
    if n > 0 {
        assert((n - 1) * l == n * l - l) by (nonlinear_arith);
        assert(n * l >= l && l * n >= 0) by (nonlinear_arith)
            requires
                n >= 1,
                l >= 0,
        ;
        lemma_concat_slots_eq(s, base, l, n - 1);
        assert(concat_slots(s, n) =~= base.subrange(0, n * l));
    } else {
        assert(n * l == 0) by (nonlinear_arith)
            requires
                n == 0,
        ;
        assert(concat_slots(s, 0) =~= base.subrange(0, 0));
    }
}

/// Basic facts about the data shards of a payload: there are `k` of them,
/// all of the common positive length, slicing the padded payload.
proof fn lemma_data_shard_facts(payload: Seq<u8>, k: int)
    requires
        k >= 1,
    ensures
        data_shards(payload, k).len() == k,
        shard_len_of(payload.len() as int, k) >= 1,
        padded_payload(payload, k).len() == k * shard_len_of(payload.len() as int, k),
        forall|i: int|
            0 <= i < k ==> (#[trigger] data_shards(payload, k)[i]).len() == shard_len_of(
                payload.len() as int,
                k,
            ),
        forall|i: int|
            0 <= i < k ==> (#[trigger] data_shards(payload, k)[i]) == padded_payload(
                payload,
                k,
            ).subrange(i * shard_len_of(payload.len() as int, k), (i + 1) * shard_len_of(
                payload.len() as int,
                k,
            )),
{
    let plen = payload.len() as int;
    let l = shard_len_of(plen, k);
    assert(k * l >= plen && k * l >= 0) by (nonlinear_arith)
        requires
            k >= 1,
            l >= 1,
            plen >= 0,
            l == shard_len_of(plen, k),
    ;
    assert(padded_payload(payload, k).len() == k * l);
    assert forall|i: int| 0 <= i < k implies (#[trigger] data_shards(payload, k)[i]).len()
        == l && data_shards(payload, k)[i] == padded_payload(payload, k).subrange(
        i * l,
        (i + 1) * l,
    ) by {
        assert(0 <= i * l && (i + 1) * l <= k * l && (i + 1) * l - i * l == l)
            by (nonlinear_arith)
            requires
                0 <= i < k,
                l >= 1,
        ;
    }
}

/// The pieces all carry indices below `k + m` and bytes equal to the
/// matching shard of `payload`'s codeword.
pub open spec fn pieces_match(pieces: Seq<(u32, Vec<u8>)>, payload: Seq<u8>, k: int, m: int) -> bool {
    forall|i: int|
        0 <= i < pieces.len() ==> {
            &&& (#[trigger] pieces[i]).0 < k + m
            &&& pieces[i].1@ == codeword_of(payload, k, m)[pieces[i].0 as int]
        }
}

/// No two pieces carry the same shard index.
pub open spec fn distinct_indices(pieces: Seq<(u32, Vec<u8>)>) -> bool {
    forall|i: int, j: int|
        0 <= i < j < pieces.len() ==> (#[trigger] pieces[i]).0 != (#[trigger] pieces[j]).0
}

/// The pieces determine `payload`: they are at least `k` distinct-index
/// shards of its codeword, and the payload does not end in a zero byte.
pub open spec fn recoverable(pieces: Seq<(u32, Vec<u8>)>, payload: Seq<u8>, k: int, m: int) -> bool {
    &&& pieces_match(pieces, payload, k, m)
    &&& distinct_indices(pieces)
    &&& pieces.len() >= k
    &&& (payload.len() == 0 || payload.last() != 0)
}

/// Try to rebuild a payload from erasure-coded pieces `(index, bytes)`.
///
/// Whenever the pieces are at least `k` shards of the codeword of some
/// payload that does not end in a zero byte, with no index repeated, the
/// result is exactly that payload; too few or inconsistent pieces give
/// `None`.
pub fn reconstruct_payload(pieces: &Vec<(u32, Vec<u8>)>, k: u32, m: u32) -> (r: Option<Vec<u8>>)
    requires
        1 <= k,
        1 <= m,
        k + m <= 256,
    ensures
        forall|payload: Seq<u8>|
            #[trigger] recoverable(pieces@, payload, k as int, m as int) ==> (r matches Some(v)
                && v@ == payload),
        pieces@.len() < k ==> r is None,
{
    let ku = k as usize;
    let mu = m as usize;
    let total = ku + mu;
    let mut slots: Vec<Option<Vec<u8>>> = Vec::new();
    let mut i: usize = 0;
    while i < total
        invariant
            i <= total,
            slots@.len() == i,
            forall|j: int| 0 <= j < i ==> slots@[j] is None,
        decreases total - i,
    {
        slots.push(None);
        i = i + 1;
    }
    proof {
        lemma_present_count_none(slots@);
    }

    let mut p: usize = 0;
    let mut filled: usize = 0;
    while p < pieces.len()
        invariant
            p <= pieces@.len(),
            slots@.len() == total,
            total == ku + mu,
            ku == k,
            mu == m,
            filled <= p,
            present_count(slots@) == filled,
            forall|j: int|
                0 <= j < total ==> match #[trigger] slots@[j] {
                    Some(v) => exists|t: int|
                        0 <= t < p && (#[trigger] pieces@[t]).0 == j && pieces@[t].1@ == v@,
                    None => true,
                },
            distinct_indices(pieces@) ==> filled == count_in_range(pieces@, p as int, total as int),
        decreases pieces@.len() - p,
    {
        let idx = pieces[p].0;
        let ghost before = slots@;
        if (idx as usize) < total {
            let iu = idx as usize;
            if slots[iu].is_none() {
                let bytes = copy_bytes(&pieces[p].1);
                slots[iu] = Some(bytes);
                proof {
                    lemma_present_count_update(before, iu as int, slots@[iu as int]);
                    assert(pieces@[p as int].0 == iu as int && pieces@[p as int].1@ == slots@[iu
                        as int]->Some_0@);
                }
                filled = filled + 1;
            } else {
                proof {
                    // A filled slot at this index names an earlier piece
                    // with the same index, so the indices are not distinct.
                    if distinct_indices(pieces@) {
                        let t = choose|t: int|
                            0 <= t < p && (#[trigger] pieces@[t]).0 == iu as int && pieces@[t].1@
                                == slots@[iu as int]->Some_0@;
                        assert(pieces@[t].0 == pieces@[p as int].0);
                        assert(false);
                    }
                }
            }
        }
        p = p + 1;
    }

    let ghost pre_slots = slots@;
    let ok = rs_reconstruct(ku, mu, &mut slots);
    proof {
        assert forall|payload: Seq<u8>|
            #[trigger] recoverable(pieces@, payload, k as int, m as int) implies (ok && (forall|
                j: int,
            |
            0 <= j < slots@.len() ==> match #[trigger] slots@[j] {
                Some(v) => v@ == codeword_of(payload, k as int, m as int)[j],
                None => false,
            }) && slots@.len() == total) by {
            let data = data_shards(payload, k as int);
            let cw = rs_codeword(ku as int, mu as int, data);
            lemma_data_shard_facts(payload, k as int);
            assert forall|i2: int| 0 <= i2 < pieces@.len() implies (#[trigger] pieces@[i2]).0
                < total by {
                assert(pieces@[i2].0 < k + m);
            }
            lemma_count_all_in_range(pieces@, pieces@.len() as int, total as int);
            assert(filled == pieces@.len());
            assert(present_count(pre_slots) >= k);
            assert forall|j: int| 0 <= j < pre_slots.len() implies match #[trigger] pre_slots[j] {
                Some(v) => v@ == cw[j],
                None => true,
            } by {
                if pre_slots[j] is Some {
                    let t = choose|t: int|
                        0 <= t < pieces@.len() && (#[trigger] pieces@[t]).0 == j && pieces@[t].1@
                            == pre_slots[j]->Some_0@;
                    assert(pieces@[t].1@ == codeword_of(payload, k as int, m as int)[pieces@[t].0
                        as int]);
                }
            }
            assert(agrees_with(pre_slots, cw));
            assert(data.len() == ku && data[0].len() >= 1);
            assert(forall|i2: int|
                0 <= i2 < data.len() ==> (#[trigger] data[i2]).len() == data[0].len());
        }
    }
    if !ok {
        return None;
    }
    // Concatenate the data shards and trim the zero padding.
    let mut out: Vec<u8> = Vec::new();
    let mut d: usize = 0;
    while d < ku
        invariant
            d <= ku,
            ku <= slots@.len(),
            out@ == concat_slots(slots@, d as int),
        decreases ku - d,
    {
        match &slots[d] {
            Some(v) => {
                crate::bytes_util::push_bytes(&mut out, v.as_slice());
            },
            None => {},
        }
        d = d + 1;
        assert(out@ =~= concat_slots(slots@, d as int));
    }
    let ghost concat_view = out@;
    trim_zeros(&mut out);
    proof {
        assert forall|payload: Seq<u8>|
            #[trigger] recoverable(pieces@, payload, k as int, m as int) implies out@
            == payload by {
            let l = shard_len_of(payload.len() as int, k as int);
            let pad = padded_payload(payload, k as int);
            let data = data_shards(payload, k as int);
            let cw = codeword_of(payload, k as int, m as int);
            lemma_data_shard_facts(payload, k as int);
            assert forall|j: int| 0 <= j < ku implies match #[trigger] slots@[j] {
                Some(v) => v@ == pad.subrange(j * l, (j + 1) * l),
                None => false,
            } by {
                assert(cw[j] == data[j]);
            }
            lemma_concat_slots_eq(slots@, pad, l, ku as int);
            assert(pad.subrange(0, ku as int * l) =~= pad);
            assert(concat_view == pad);
            lemma_trim_padding(payload, zeros(k as int * l - payload.len()));
        }
    }
    Some(out)
}

} // verus!
