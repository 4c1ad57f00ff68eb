//! Byte strings: runs of zeros, copies and ranges.

use vstd::prelude::*;

verus! {

/// `count` zero bytes.
pub open spec fn zeros(count: int) -> Seq<u8> {
    Seq::new(count as nat, |i: int| 0u8)
}

/// Every byte is zero.
pub open spec fn is_zero(bytes: Seq<u8>) -> bool {
    forall|i: int| 0 <= i < bytes.len() ==> bytes[i] == 0
}

/// The byte strings that a sequence of vectors holds.
pub open spec fn views(vectors: Seq<Vec<u8>>) -> Seq<Seq<u8>> {
    vectors.map_values(|vector: Vec<u8>| vector@)
}

/// How many bytes a sequence of byte strings holds.
pub open spec fn total(strings: Seq<Seq<u8>>) -> int
    decreases strings.len(),
{
    if strings.len() == 0 {
        0
    } else {
        total(strings.drop_last()) + strings.last().len()
    }
}

/// Whether every byte is zero.
pub fn all_zero(bytes: &[u8]) -> (zero: bool)
    ensures
        zero == is_zero(bytes@),
{
    let mut at: usize = 0;
    while at < bytes.len()
        invariant
            at <= bytes@.len(),
            forall|i: int| 0 <= i < at ==> bytes@[i] == 0,
        decreases bytes@.len() - at,
    {
        if bytes[at] != 0 {
            return false;
        }
        at += 1;
    }
    true
}

/// Appends `count` zero bytes to `output`.
pub fn put_zeros(output: &mut Vec<u8>, count: usize)
    requires
        old(output)@.len() + count <= usize::MAX,
    ensures
        final(output)@ == old(output)@ + zeros(count as int),
{
    let ghost before = output@;
    let length: usize = output.len() + count;
    output.resize(length, 0);
    proof {
        assert forall|i: int| 0 <= i < length implies output@[i] == (before + zeros(count as int))[i] by {
            if i < before.len() {
                assert(output@.subrange(0, before.len() as int)[i] == before[i]);
            }
        }
        assert(output@ =~= before + zeros(count as int));
    }
}

/// Appends a copy of `bytes` to `output`.
pub fn put_bytes(output: &mut Vec<u8>, bytes: &[u8])
    ensures
        final(output)@ == old(output)@ + bytes@,
{
    output.extend_from_slice(bytes);
    assert(output@ =~= old(output)@ + bytes@);
}

/// A copy of `bytes[start..end]`.
pub fn copy_range(bytes: &[u8], start: usize, end: usize) -> (copy: Vec<u8>)
    requires
        start <= end <= bytes@.len(),
    ensures
        copy@ == bytes@.subrange(start as int, end as int),
{
    let mut copy: Vec<u8> = Vec::new();
    put_bytes(&mut copy, &bytes[start..end]);
    assert(copy@ =~= bytes@.subrange(start as int, end as int));
    copy
}

/// Whether two byte strings hold the same bytes.
pub fn same_bytes(left: &[u8], right: &[u8]) -> (same: bool)
    ensures
        same == (left@ == right@),
{
    if left.len() != right.len() {
        return false;
    }
    let mut at: usize = 0;
    while at < left.len()
        invariant
            at <= left@.len(),
            left@.len() == right@.len(),
            forall|i: int| 0 <= i < at ==> left@[i] == right@[i],
        decreases left@.len() - at,
    {
        if left[at] != right[at] {
            assert(left@[at as int] != right@[at as int]);
            return false;
        }
        at += 1;
    }
    assert(left@ =~= right@);
    true
}

} // verus!
