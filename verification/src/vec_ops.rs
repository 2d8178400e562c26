//! Two operations on vectors that the slot table needs: rotating a range and
//! removing a range.
use vstd::prelude::*;

verus! {

/// `s` with `s[lo..hi]` rotated to the left by `mid`: the first `mid` slots of
/// the range move behind the others, which keep their order.
pub open spec fn rotated<T>(s: Seq<T>, lo: int, hi: int, mid: int) -> Seq<T> {
    s.subrange(0, lo) + s.subrange(lo + mid, hi) + s.subrange(lo, lo + mid) + s.subrange(
        hi,
        s.len() as int,
    )
}

/// `s` without `s[lo..hi]`.
pub open spec fn without_range<T>(s: Seq<T>, lo: int, hi: int) -> Seq<T> {
    s.subrange(0, lo) + s.subrange(hi, s.len() as int)
}

/// Where the slot at `i` of a rotated sequence comes from.
pub open spec fn rotated_from(lo: int, hi: int, mid: int, i: int) -> int {
    if i < lo || i >= hi {
        i
    } else if i < hi - mid {
        i + mid
    } else {
        i - (hi - lo - mid)
    }
}

/// Where the slot at `j` goes when the sequence is rotated.
pub open spec fn rotated_to(lo: int, hi: int, mid: int, j: int) -> int {
    if j < lo || j >= hi {
        j
    } else if j < lo + mid {
        j + (hi - lo - mid)
    } else {
        j - mid
    }
}

/// A rotated sequence holds the same slots at other places.
pub proof fn lemma_rotated_index<T>(s: Seq<T>, lo: int, hi: int, mid: int)
    requires
        0 <= lo <= hi <= s.len(),
        0 <= mid <= hi - lo,
    ensures
        rotated(s, lo, hi, mid).len() == s.len(),
        forall|i: int|
            0 <= i < s.len() ==> #[trigger] rotated(s, lo, hi, mid)[i] == s[rotated_from(
                lo,
                hi,
                mid,
                i,
            )],
        forall|i: int|
            0 <= i < s.len() ==> 0 <= #[trigger] rotated_from(lo, hi, mid, i) < s.len()
                && rotated_to(lo, hi, mid, rotated_from(lo, hi, mid, i)) == i,
        forall|j: int|
            0 <= j < s.len() ==> 0 <= #[trigger] rotated_to(lo, hi, mid, j) < s.len()
                && rotated_from(lo, hi, mid, rotated_to(lo, hi, mid, j)) == j,
{
}

/// `<[T]>::rotate_left` on the sub-slice `v[lo..hi]`: the first `mid` elements
/// of the range move to its end, the others to its front, each part in its
/// order. It panics when `mid` exceeds the length of the range.
#[verifier::external_body]
pub(crate) fn rotate_range_left<T>(v: &mut Vec<T>, lo: usize, hi: usize, mid: usize)
    requires
        lo <= hi <= old(v).len(),
        mid <= hi - lo,
    ensures
        final(v)@ == rotated(old(v)@, lo as int, hi as int, mid as int),
{
    v[lo..hi].rotate_left(mid);
}

/// `Vec::drain` on `lo..hi`, the drained elements dropped: the vector without
/// that range. It panics when the range does not lie in the vector.
#[verifier::external_body]
pub(crate) fn remove_range<T>(v: &mut Vec<T>, lo: usize, hi: usize)
    requires
        lo <= hi <= old(v).len(),
    ensures
        final(v)@ == without_range(old(v)@, lo as int, hi as int),
{
    v.drain(lo..hi);
}

} // verus!
