use crate::decorrelate::stereo::in_i64;
use vstd::prelude::*;

verus! {

/// The length `vector_sub_i64` works on: the shortest of its three arguments.
pub open spec fn common_len(a: nat, b: nat, c: nat) -> nat {
    if a <= b && a <= c {
        a
    } else if b <= c {
        b
    } else {
        c
    }
}

/// Writes `a[i] - b[i]` into `out[i]` for every index all three slices have.
pub fn vector_sub_i64(a: &[i64], b: &[i64], out: &mut [i64])
    requires
        forall|i: int|
            0 <= i < common_len(a@.len(), b@.len(), old(out)@.len()) ==> in_i64(
                #[trigger] a@[i] - b@[i],
            ),
    ensures
        final(out)@.len() == old(out)@.len(),
        forall|i: int|
            0 <= i < old(out)@.len() ==> #[trigger] final(out)@[i] == if i < common_len(
                a@.len(),
                b@.len(),
                old(out)@.len(),
            ) {
                (a@[i] - b@[i]) as i64
            } else {
                old(out)@[i]
            },
{
    let mut len = a.len();
    if b.len() < len {
        len = b.len();
    }
    if out.len() < len {
        len = out.len();
    }
    proof {
        assert(len == common_len(a@.len(), b@.len(), old(out)@.len()));
    }
    let mut i: usize = 0;
    while i < len
        invariant
            i <= len,
            len == common_len(a@.len(), b@.len(), old(out)@.len()),
            len <= a@.len(),
            len <= b@.len(),
            out@.len() == old(out)@.len(),
            forall|j: int|
                0 <= j < len ==> in_i64(#[trigger] a@[j] - b@[j]),
            forall|j: int|
                0 <= j < out@.len() ==> #[trigger] out@[j] == if j < i {
                    (a@[j] - b@[j]) as i64
                } else {
                    old(out)@[j]
                },
        decreases len - i,
    {
        assert(in_i64(a@[i as int] - b@[i as int]));
        out[i] = a[i] - b[i];
        i = i + 1;
    }
}

} // verus!
