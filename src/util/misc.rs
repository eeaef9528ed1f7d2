use vstd::prelude::*;

verus! {

/// Relies on `Vec::shrink_to_fit`: it only releases spare capacity, the elements stay as they are.
#[verifier::external_body]
pub(crate) fn shrink_vec<T>(v: &mut Vec<T>)
    ensures
        final(v)@ == old(v)@,
{
    v.shrink_to_fit();
}

/// The largest element of a non-empty sequence.
pub open spec fn seq_max(s: Seq<usize>) -> usize
    recommends
        s.len() > 0,
    decreases s.len(),
{
    if s.len() <= 1 {
        s[0]
    } else {
        let m = seq_max(s.drop_last());
        if s.last() > m {
            s.last()
        } else {
            m
        }
    }
}

pub fn max_of_usizes(arr: &[usize]) -> (r: usize)
    requires
        arr@.len() > 0,
    ensures
        r == seq_max(arr@),
        forall|i: int| 0 <= i < arr@.len() ==> arr@[i] <= r,
        exists|i: int| 0 <= i < arr@.len() && arr@[i] == r,
{
    let mut i: usize = 1;
    let mut max: usize = arr[0];
    while i < arr.len()
        invariant
            1 <= i <= arr@.len(),
            max == seq_max(arr@.subrange(0, i as int)),
            forall|j: int| 0 <= j < i ==> arr@[j] <= max,
            exists|j: int| 0 <= j < i && arr@[j] == max,
        decreases arr@.len() - i,
    {
        assert(arr@.subrange(0, i as int + 1).drop_last() =~= arr@.subrange(0, i as int));
        if arr[i] > max {
            max = arr[i];
        }
        i = i + 1;
    }
    assert(arr@.subrange(0, arr@.len() as int) =~= arr@);
    max
}

} // verus!
