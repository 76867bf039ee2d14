//! The mathematical meaning of a replacement run over a whole input.
use vstd::prelude::*;

verus! {

/// A list of patterns: each is a search sequence and its replacement, in
/// declaration order.
pub type Patterns<T> = Seq<(Seq<T>, Seq<T>)>;

/// Every search sequence is non-empty.
pub open spec fn patterns_nonempty<T>(pats: Patterns<T>) -> bool {
    forall|k: int| 0 <= k < pats.len() ==> (#[trigger] pats[k]).0.len() > 0
}

/// `p` occurs in `input` ending at position `e` and starting at or after `start`.
pub open spec fn ends_at<T>(input: Seq<T>, p: Seq<T>, start: int, e: int) -> bool {
    &&& 0 < p.len()
    &&& 0 <= start <= e + 1 - p.len()
    &&& e < input.len()
    &&& input.subrange(e + 1 - p.len(), e + 1) == p
}

/// The lowest rank at or after `k` whose search sequence occurs ending at `e`,
/// starting at or after `start`.
pub open spec fn first_hit<T>(input: Seq<T>, pats: Patterns<T>, start: int, e: int, k: int) -> Option<int>
    decreases pats.len() - k,
{
    if k >= pats.len() {
        None
    } else if ends_at(input, pats[k].0, start, e) {
        Some(k)
    } else {
        first_hit(input, pats, start, e, k + 1)
    }
}

/// The output for `input[start..]`, where `start` follows the last replaced
/// region and no occurrence starting at or after `start` ends before `e`.
/// Scanning left to right, the first position where an occurrence ends is
/// replaced by the lowest-ranked pattern that ends there; scanning then
/// resumes after it.
pub open spec fn output_from<T>(input: Seq<T>, pats: Patterns<T>, start: int, e: int) -> Seq<T>
    decreases input.len() - e,
{
    if e >= input.len() {
        input.subrange(start, input.len() as int)
    } else {
        match first_hit(input, pats, start, e, 0) {
            Some(k) => input.subrange(start, e + 1 - pats[k].0.len()) + pats[k].1 + output_from(
                input,
                pats,
                e + 1,
                e + 1,
            ),
            None => output_from(input, pats, start, e + 1),
        }
    }
}

/// The output of replacing, left to right and without overlap, every
/// occurrence of the patterns in `input`.
pub open spec fn replaced<T>(input: Seq<T>, pats: Patterns<T>) -> Seq<T> {
    output_from(input, pats, 0, 0)
}

/// What a rank found by `first_hit` satisfies.
pub proof fn lemma_first_hit_some<T>(input: Seq<T>, pats: Patterns<T>, start: int, e: int, k: int)
    requires
        0 <= k,
        first_hit(input, pats, start, e, k) is Some,
    ensures
        ({
            let j = first_hit(input, pats, start, e, k)->0;
            &&& k <= j < pats.len()
            &&& ends_at(input, pats[j].0, start, e)
            &&& forall|m: int| k <= m < j ==> !ends_at(input, #[trigger] pats[m].0, start, e)
        }),
    decreases pats.len() - k,
{
    if k < pats.len() && !ends_at(input, pats[k].0, start, e) {
        lemma_first_hit_some(input, pats, start, e, k + 1);
    }
}

/// When `first_hit` finds nothing, no pattern from `k` on ends there.
pub proof fn lemma_first_hit_none<T>(input: Seq<T>, pats: Patterns<T>, start: int, e: int, k: int)
    requires
        0 <= k,
        first_hit(input, pats, start, e, k) is None,
    ensures
        forall|m: int| k <= m < pats.len() ==> !ends_at(input, #[trigger] pats[m].0, start, e),
    decreases pats.len() - k,
{
    if k < pats.len() {
        lemma_first_hit_none(input, pats, start, e, k + 1);
    }
}

} // verus!
