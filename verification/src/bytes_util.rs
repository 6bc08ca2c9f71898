//! Small verified helpers on byte vectors shared by the hashing, codec and
//! data-availability modules.

use vstd::prelude::*;

verus! {

/// Append all of `b` to `out`.
pub fn push_bytes(out: &mut Vec<u8>, b: &[u8])
    ensures
        final(out)@ == old(out)@ + b@,
{
    let mut i: usize = 0;
    while i < b.len()
        invariant
            i <= b@.len(),
            out@ == old(out)@ + b@.subrange(0, i as int),
        decreases b@.len() - i,
    {
        out.push(b[i]);
        i = i + 1;
        assert(out@ == old(out)@ + b@.subrange(0, i as int));
    }
    assert(b@.subrange(0, b@.len() as int) == b@);
}

/// Append the 8-byte little-endian encoding of `x` to `out`.
pub fn push_u64_le(out: &mut Vec<u8>, x: u64)
    ensures
        final(out)@ == old(out)@ + vstd::bytes::spec_u64_to_le_bytes(x),
{
    let le = vstd::bytes::u64_to_le_bytes(x);
    push_bytes(out, le.as_slice());
}

/// Copy a byte vector.
pub fn copy_bytes(b: &Vec<u8>) -> (r: Vec<u8>)
    ensures
        r@ == b@,
{
    let mut out: Vec<u8> = Vec::new();
    push_bytes(&mut out, b.as_slice());
    out
}

/// Byte-for-byte equality of two vectors.
pub fn bytes_eq(a: &Vec<u8>, b: &Vec<u8>) -> (r: bool)
    ensures
        r == (a@ == b@),
{
    if a.len() != b.len() {
        assert(a@ != b@);
        return false;
    }
    let mut i: usize = 0;
    while i < a.len()
        invariant
            i <= a@.len(),
            a@.len() == b@.len(),
            forall|j: int| 0 <= j < i ==> a@[j] == b@[j],
        decreases a@.len() - i,
    {
        if a[i] != b[i] {
            return false;
        }
        i = i + 1;
    }
    assert(a@ =~= b@);
    true
}

/// The copy of `s` with every trailing zero byte removed.
pub open spec fn spec_trim_zeros(s: Seq<u8>) -> Seq<u8>
    decreases s.len(),
{
    if s.len() > 0 && s.last() == 0 {
        spec_trim_zeros(s.drop_last())
    } else {
        s
    }
}

/// Trimming bytes appended as zero padding gives back the original,
/// provided the original does not itself end in a zero byte.
pub proof fn lemma_trim_padding(s: Seq<u8>, pad: Seq<u8>)
    requires
        s.len() == 0 || s.last() != 0,
        forall|i: int| 0 <= i < pad.len() ==> pad[i] == 0,
    ensures
        spec_trim_zeros(s + pad) == s,
    decreases pad.len(),
{
    if pad.len() == 0 {
        assert(s + pad =~= s);
        if s.len() > 0 {
            assert(spec_trim_zeros(s) == s);
        }
    } else {
        let shorter = pad.drop_last();
        assert((s + pad).last() == 0);
        assert((s + pad).drop_last() =~= s + shorter);
        lemma_trim_padding(s, shorter);
    }
}

/// Remove every trailing zero byte of `v`.
pub fn trim_zeros(v: &mut Vec<u8>)
    ensures
        final(v)@ == spec_trim_zeros(old(v)@),
{
    loop
        invariant
            spec_trim_zeros(v@) == spec_trim_zeros(old(v)@),
        decreases v@.len(),
    {
        if v.len() == 0 {
            return ;
        }
        let last = v[v.len() - 1];
        if last != 0 {
            return ;
        }
        let ghost prev = v@;
        v.pop();
        assert(v@ =~= prev.drop_last());
    }
}

} // verus!
