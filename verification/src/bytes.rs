//! Small byte-buffer helpers shared by the codec and the error renderer.

use vstd::prelude::*;
use vstd::string::StringSliceAdditionalSpecFns;

verus! {

/// Copies the UTF-8 bytes of a string slice into a fresh vector.
pub fn str_bytes(s: &str) -> (r: Vec<u8>)
    ensures
        r@ == s.spec_bytes(),
{
    vstd::slice::slice_to_vec(s.as_bytes())
}

/// Appends every byte of `tail` to `out`.
pub fn push_all(out: &mut Vec<u8>, tail: &Vec<u8>)
    ensures
        final(out)@ == old(out)@ + tail@,
{
    let ghost start = out@;
    for i in 0..tail.len()
        invariant
            out@ == start + tail@.take(i as int),
    {
        out.push(tail[i]);
        assert(out@ =~= start + tail@.take(i as int + 1));
    }
    assert(out@ =~= start + tail@);
}

/// Whether two byte strings hold the same bytes.
pub fn bytes_eq(a: &Vec<u8>, b: &Vec<u8>) -> (r: bool)
    ensures
        r == (a@ == b@),
{
    if a.len() != b.len() {
        return false;
    }
    let n = a.len();
    for i in 0..n
        invariant
            n == a.len() == b.len(),
            forall|j: int| 0 <= j < i ==> a@[j] == b@[j],
    {
        if a[i] != b[i] {
            return false;
        }
    }
    assert(a@ =~= b@);
    true
}

} // verus!
