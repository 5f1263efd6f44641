//! Leftmost occurrence of one byte string inside another.

use vstd::prelude::*;

verus! {

/// `needle` stands in `hay` at offset `i`.
pub open spec fn occurs_at(needle: Seq<u8>, hay: Seq<u8>, i: int) -> bool {
    &&& 0 <= i
    &&& i + needle.len() <= hay.len()
    &&& hay.subrange(i, i + needle.len()) == needle
}

/// `needle` stands somewhere in `hay`.
pub open spec fn occurs(needle: Seq<u8>, hay: Seq<u8>) -> bool {
    exists|i: int| occurs_at(needle, hay, i)
}

/// `i` is the offset of the leftmost occurrence of `needle` in `hay`.
pub open spec fn is_leftmost(needle: Seq<u8>, hay: Seq<u8>, i: int) -> bool {
    &&& occurs_at(needle, hay, i)
    &&& forall|j: int| 0 <= j < i ==> !occurs_at(needle, hay, j)
}

/// The offset of the leftmost occurrence of `needle` in `hay`, where there is
/// one.
pub open spec fn leftmost(needle: Seq<u8>, hay: Seq<u8>) -> int {
    choose|i: int| is_leftmost(needle, hay, i)
}

/// There is at most one leftmost occurrence, and `leftmost` names it.
pub proof fn lemma_leftmost_unique(needle: Seq<u8>, hay: Seq<u8>, i: int)
    requires
        is_leftmost(needle, hay, i),
    ensures
        occurs(needle, hay),
        leftmost(needle, hay) == i,
{
    let l = leftmost(needle, hay);
    assert(is_leftmost(needle, hay, l));
    if l < i {
        assert(!occurs_at(needle, hay, l));
    }
    if i < l {
        assert(!occurs_at(needle, hay, i));
    }
}

/// Where the pattern occurs at all, it has a leftmost occurrence.
pub proof fn lemma_leftmost_exists(needle: Seq<u8>, hay: Seq<u8>, i: int)
    requires
        occurs_at(needle, hay, i),
    ensures
        is_leftmost(needle, hay, leftmost(needle, hay)),
        0 <= leftmost(needle, hay) <= i,
    decreases i,
{
    if exists|j: int| 0 <= j < i && occurs_at(needle, hay, j) {
        let j = choose|j: int| 0 <= j < i && occurs_at(needle, hay, j);
        lemma_leftmost_exists(needle, hay, j);
    } else {
        assert(is_leftmost(needle, hay, i));
        lemma_leftmost_unique(needle, hay, i);
    }
}

/// Whether `needle` stands in `hay` at offset `i`.
pub fn matches_at(needle: &[u8], hay: &[u8], i: usize) -> (r: bool)
    ensures
        r == occurs_at(needle@, hay@, i as int),
{
    let n: usize = needle.len();
    let h: usize = hay.len();
    if n > h || i > h - n {
        return false;
    }
    let mut k: usize = 0;
    while k < n
        invariant
            n == needle@.len(),
            h == hay@.len(),
            i + n <= h,
            k <= n,
            forall|t: int| 0 <= t < k ==> hay@[i + t] == needle@[t],
        decreases n - k,
    {
        if hay[i + k] != needle[k] {
            proof {
                let window = hay@.subrange(i as int, i + n);
                assert(window[k as int] == hay@[i + k]);
            }
            return false;
        }
        k += 1;
    }
    assert(hay@.subrange(i as int, i + n) =~= needle@);
    true
}

/// The offset of the leftmost occurrence of `needle` in `hay`, or `None`
/// where `needle` does not occur. The empty needle occurs at offset 0 of any
/// haystack.
pub fn find_first(needle: &[u8], hay: &[u8]) -> (r: Option<usize>)
    ensures
        match r {
            Some(i) => is_leftmost(needle@, hay@, i as int),
            None => !occurs(needle@, hay@),
        },
{
    let n: usize = needle.len();
    let h: usize = hay.len();
    if n > h {
        return None;
    }
    let last: usize = h - n;
    let mut i: usize = 0;
    loop
        invariant
            n == needle@.len(),
            h == hay@.len(),
            n <= h,
            last == h - n,
            i <= last,
            forall|j: int| 0 <= j < i ==> !occurs_at(needle@, hay@, j),
        decreases last - i,
    {
        if matches_at(needle, hay, i) {
            return Some(i);
        }
        if i == last {
            return None;
        }
        i += 1;
    }
}

} // verus!
