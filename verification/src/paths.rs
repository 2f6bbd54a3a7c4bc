//! The path decomposer: splits a path into its non-empty segments, in
//! root-to-leaf order, treating `/` as the separator. Leading, trailing and
//! repeated separators contribute no segments, so a degenerate path
//! decomposes to the empty sequence.

use vstd::prelude::*;
use crate::strutil::push_char;

verus! {

/// The index just past the segment that starts at `i`: the first index at or
/// after `i` holding a separator, or the end of the path.
pub open spec fn seg_end(s: Seq<char>, i: int) -> int
    decreases s.len() - i,
{
    if !(0 <= i < s.len()) {
        s.len() as int
    } else if s[i] == '/' {
        i
    } else {
        seg_end(s, i + 1)
    }
}

pub proof fn lemma_seg_end_bounds(s: Seq<char>, i: int)
    requires
        0 <= i <= s.len(),
    ensures
        i <= seg_end(s, i) <= s.len(),
        i < s.len() && s[i] != '/' ==> i < seg_end(s, i),
    decreases s.len() - i,
{
    if i < s.len() && s[i] != '/' {
        lemma_seg_end_bounds(s, i + 1);
    }
}

/// The decomposition of the path from position `i` on: the maximal runs of
/// non-separator characters, in order.
pub open spec fn decompose_from(s: Seq<char>, i: int) -> Seq<Seq<char>>
    decreases s.len() - i,
    when i >= 0
    via decompose_from_dec
{
    if !(0 <= i < s.len()) {
        Seq::empty()
    } else if s[i] == '/' {
        decompose_from(s, i + 1)
    } else {
        seq![s.subrange(i, seg_end(s, i))] + decompose_from(s, seg_end(s, i))
    }
}

#[via_fn]
proof fn decompose_from_dec(s: Seq<char>, i: int) {
    if 0 <= i < s.len() && s[i] != '/' {
        lemma_seg_end_bounds(s, i);
    }
}

/// The segments of a whole path.
pub open spec fn decompose(s: Seq<char>) -> Seq<Seq<char>> {
    decompose_from(s, 0)
}

/// `seg_end(s, i)` is the unique boundary of the non-separator run at `i`.
proof fn lemma_seg_end_of_run(s: Seq<char>, i: int, j: int)
    requires
        0 <= i <= j <= s.len(),
        forall|k: int| i <= k < j ==> s[k] != '/',
        j == s.len() || s[j] == '/',
    ensures
        seg_end(s, i) == j,
    decreases j - i,
{
    if i < j {
        lemma_seg_end_of_run(s, i + 1, j);
    }
}

/// Splits a path into its segments: the maximal runs of characters between
/// `/` separators, dropping all empty runs.
pub fn decompose_path(path: &str) -> (r: Vec<String>)
    ensures
        r.deep_view() == decompose(path@),
{
    let len = path.unicode_len();
    let mut segs: Vec<String> = Vec::new();
    let mut i: usize = 0;
    while i < len
        invariant
            len == path@.len(),
            i <= len,
            segs.deep_view() + decompose_from(path@, i as int) =~= decompose(path@),
        decreases len - i,
    {
        let c = path.get_char(i);
        if c == '/' {
            i = i + 1;
        } else {
            let mut seg = String::new();
            let mut j: usize = i;
            while j < len && path.get_char(j) != '/'
                invariant
                    len == path@.len(),
                    i <= j <= len,
                    seg@ =~= path@.subrange(i as int, j as int),
                    forall|k: int| i <= k < j ==> path@[k] != '/',
                decreases len - j,
            {
                let cj = path.get_char(j);
                push_char(&mut seg, cj);
                proof {
                    assert(seg@ =~= path@.subrange(i as int, j as int + 1));
                }
                j = j + 1;
            }
            let ghost segs0 = segs.deep_view();
            proof {
                lemma_seg_end_of_run(path@, i as int, j as int);
            }
            segs.push(seg);
            proof {
                assert(segs.deep_view() =~= segs0.push(seg@));
                assert(segs0.push(seg@) + decompose_from(path@, j as int) =~= segs0 + (seq![seg@]
                    + decompose_from(path@, j as int)));
                assert(seq![seg@] + decompose_from(path@, j as int) =~= decompose_from(
                    path@,
                    i as int,
                ));
            }
            i = j;
        }
    }
    segs
}

} // verus!
