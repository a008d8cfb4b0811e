//! Small byte-vector helpers.
use vstd::prelude::*;

verus! {

/// A copy of a byte vector with the same contents.
pub fn clone_bytes(v: &Vec<u8>) -> (r: Vec<u8>)
    ensures
        r@ == v@,
{
    let r = v.clone();
    proof {
        assert forall|i: int| 0 <= i < v@.len() implies v@[i] == r@[i] by {
            assert(cloned::<u8>(v@[i], r@[i]));
        }
        assert(v@ =~= r@);
    }
    r
}

} // verus!
