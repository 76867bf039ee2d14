//! Properties of the output of a replacement run.
use crate::model::{
    ends_at, first_hit, lemma_first_hit_none, lemma_first_hit_some, output_from, patterns_nonempty, replaced,
    Patterns,
};
use vstd::prelude::*;

verus! {

/// Where no occurrence that starts at or after `f` ends at or after `e`,
/// the output from `f` is the input from `f`.
proof fn lemma_no_hit_copies<T>(input: Seq<T>, pats: Patterns<T>, f: int, e: int)
    requires
        0 <= f <= e + 1,
        f <= input.len(),
        forall|k: int, e2: int|
            0 <= k < pats.len() && e <= e2 ==> !#[trigger] ends_at(input, pats[k].0, f, e2),
    ensures
        output_from(input, pats, f, e) == input.subrange(f, input.len() as int),
    decreases input.len() - e,
{
    if e < input.len() {
        if first_hit(input, pats, f, e, 0) is Some {
            lemma_first_hit_some(input, pats, f, e, 0);
            let k = first_hit(input, pats, f, e, 0)->0;
            assert(ends_at(input, pats[k].0, f, e));
        }
        lemma_no_hit_copies(input, pats, f, e + 1);
    }
}

/// A pattern set none of whose search sequences occurs in the input
/// leaves the input unchanged: same tokens, same order, same length.
pub proof fn lemma_absent_patterns_keep_input<T>(input: Seq<T>, pats: Patterns<T>)
    requires
        forall|k: int, e: int| 0 <= k < pats.len() ==> !#[trigger] ends_at(input, pats[k].0, 0, e),
    ensures
        replaced(input, pats) == input,
{
    lemma_no_hit_copies(input, pats, 0, 0);
    assert(input.subrange(0, input.len() as int) =~= input);
}

proof fn lemma_identity_copies<T>(input: Seq<T>, pats: Patterns<T>, f: int, e: int)
    requires
        0 <= f <= e + 1,
        f <= input.len(),
        forall|k: int| 0 <= k < pats.len() ==> (#[trigger] pats[k]).1 == pats[k].0,
    ensures
        output_from(input, pats, f, e) == input.subrange(f, input.len() as int),
    decreases input.len() - e,
{
    if e < input.len() {
        match first_hit(input, pats, f, e, 0) {
            Some(k) => {
                lemma_first_hit_some(input, pats, f, e, 0);
                lemma_identity_copies(input, pats, e + 1, e + 1);
                let s = e + 1 - pats[k].0.len();
                assert(input.subrange(f, input.len() as int) =~= input.subrange(f, s) + input.subrange(s, e + 1)
                    + input.subrange(e + 1, input.len() as int));
            },
            None => {
                lemma_identity_copies(input, pats, f, e + 1);
            },
        }
    }
}

/// Replacing every pattern by its own search sequence gives back the input.
pub proof fn lemma_identity_replacement_round_trips<T>(input: Seq<T>, pats: Patterns<T>)
    requires
        forall|k: int| 0 <= k < pats.len() ==> (#[trigger] pats[k]).1 == pats[k].0,
    ensures
        replaced(input, pats) == input,
{
    lemma_identity_copies(input, pats, 0, 0);
    assert(input.subrange(0, input.len() as int) =~= input);
}


/// Occurrences in a suffix of the input are occurrences in the input,
/// shifted by where the suffix begins.
proof fn lemma_ends_at_suffix<T>(input: Seq<T>, p: Seq<T>, c: int, a: int, b: int)
    requires
        0 <= c <= input.len(),
        0 <= a,
    ensures
        ends_at(input, p, c + a, c + b) == ends_at(input.subrange(c, input.len() as int), p, a, b),
{
    let sub = input.subrange(c, input.len() as int);
    if 0 < p.len() && a <= b + 1 - p.len() && c + b < input.len() {
        assert(input.subrange(c + b + 1 - p.len(), c + b + 1) =~= sub.subrange(b + 1 - p.len(), b + 1));
    }
}

proof fn lemma_first_hit_suffix<T>(input: Seq<T>, pats: Patterns<T>, c: int, a: int, b: int, k: int)
    requires
        0 <= c <= input.len(),
        0 <= a,
    ensures
        first_hit(input, pats, c + a, c + b, k) == first_hit(
            input.subrange(c, input.len() as int),
            pats,
            a,
            b,
            k,
        ),
    decreases pats.len() - k,
{
    if k < pats.len() {
        lemma_ends_at_suffix(input, pats[k].0, c, a, b);
        lemma_first_hit_suffix(input, pats, c, a, b, k + 1);
    }
}

proof fn lemma_output_suffix<T>(input: Seq<T>, pats: Patterns<T>, c: int, a: int, b: int)
    requires
        0 <= c <= input.len(),
        0 <= a <= b + 1,
        c + a <= input.len(),
    ensures
        output_from(input, pats, c + a, c + b) == output_from(
            input.subrange(c, input.len() as int),
            pats,
            a,
            b,
        ),
    decreases input.len() - (c + b),
{
    let sub = input.subrange(c, input.len() as int);
    if c + b >= input.len() {
        assert(input.subrange(c + a, input.len() as int) =~= sub.subrange(a, sub.len() as int));
    } else {
        lemma_first_hit_suffix(input, pats, c, a, b, 0);
        match first_hit(input, pats, c + a, c + b, 0) {
            Some(k) => {
                lemma_first_hit_some(input, pats, c + a, c + b, 0);
                lemma_output_suffix(input, pats, c, b + 1, b + 1);
                let s = b + 1 - pats[k].0.len();
                assert(input.subrange(c + a, c + s) =~= sub.subrange(a, s));
            },
            None => {
                lemma_output_suffix(input, pats, c, a, b + 1);
            },
        }
    }
}

proof fn lemma_skip_no_hits<T>(input: Seq<T>, pats: Patterns<T>, e2: int, e: int)
    requires
        0 <= e2 <= e <= input.len(),
        forall|e3: int| 0 <= e3 < e ==> (#[trigger] first_hit(input, pats, 0, e3, 0)) is None,
    ensures
        output_from(input, pats, 0, e2) == output_from(input, pats, 0, e),
    decreases e - e2,
{
    if e2 < e {
        assert(first_hit(input, pats, 0, e2, 0) is None);
        lemma_skip_no_hits(input, pats, e2 + 1, e);
    }
}

/// Tokens outside committed matches are kept in order. Where the first
/// occurrence to complete ends at `e`, and `k` is the lowest rank that
/// completes there, the output is the input before that occurrence, then
/// the replacement of rank `k`, then the output for the input after `e`.
pub proof fn lemma_first_match_split<T>(input: Seq<T>, pats: Patterns<T>, e: int, k: int)
    requires
        0 <= e < input.len(),
        first_hit(input, pats, 0, e, 0) == Some(k),
        forall|e2: int| 0 <= e2 < e ==> (#[trigger] first_hit(input, pats, 0, e2, 0)) is None,
    ensures
        0 <= e + 1 - pats[k].0.len(),
        replaced(input, pats) == input.subrange(0, e + 1 - pats[k].0.len()) + pats[k].1 + replaced(
            input.subrange(e + 1, input.len() as int),
            pats,
        ),
{
    lemma_first_hit_some(input, pats, 0, e, 0);
    lemma_skip_no_hits(input, pats, 0, e);
    lemma_output_suffix(input, pats, e + 1, 0, 0);
}

/// Where no pattern completes anywhere, no token is replaced.
pub proof fn lemma_no_match_keeps_input<T>(input: Seq<T>, pats: Patterns<T>)
    requires
        forall|e: int| 0 <= e < input.len() ==> (#[trigger] first_hit(input, pats, 0, e, 0)) is None,
    ensures
        replaced(input, pats) == input,
{
    assert forall|k: int, e: int| 0 <= k < pats.len() implies !#[trigger] ends_at(input, pats[k].0, 0, e) by {
        if ends_at(input, pats[k].0, 0, e) {
            assert(first_hit(input, pats, 0, e, 0) is None);
            lemma_first_hit_none(input, pats, 0, e, 0);
        }
    }
    lemma_absent_patterns_keep_input(input, pats);
}


/// `first_hit` finds `k` when pattern `k` ends there and no earlier one does.
proof fn lemma_first_hit_is<T>(input: Seq<T>, pats: Patterns<T>, f: int, e: int, k: int, m: int)
    requires
        0 <= m <= k < pats.len(),
        ends_at(input, pats[k].0, f, e),
        forall|q: int| m <= q < k ==> !#[trigger] ends_at(input, pats[q].0, f, e),
    ensures
        first_hit(input, pats, f, e, m) == Some(k),
    decreases k - m,
{
    if m < k {
        lemma_first_hit_is(input, pats, f, e, k, m + 1);
    }
}

/// `first_hit` finds nothing when no pattern from `m` on ends there.
proof fn lemma_first_hit_absent<T>(input: Seq<T>, pats: Patterns<T>, f: int, e: int, m: int)
    requires
        0 <= m,
        forall|q: int| m <= q < pats.len() ==> !#[trigger] ends_at(input, pats[q].0, f, e),
    ensures
        first_hit(input, pats, f, e, m) is None,
    decreases pats.len() - m,
{
    if m < pats.len() {
        lemma_first_hit_absent(input, pats, f, e, m + 1);
    }
}

/// Where no occurrence ends before `e`, the pattern found at `e` is the same
/// with or without the shadowed pattern `j`.
proof fn lemma_shadowed_hit<T>(input: Seq<T>, pats: Patterns<T>, i: int, j: int, f: int, e: int)
    requires
        patterns_nonempty(pats),
        0 <= i < j < pats.len(),
        pats[i].0.len() <= pats[j].0.len(),
        pats[j].0.subrange(0, pats[i].0.len() as int) == pats[i].0,
        0 <= f,
        forall|e2: int| e2 < e ==> (#[trigger] first_hit(input, pats, f, e2, 0)) is None,
    ensures
        match first_hit(input, pats, f, e, 0) {
            Some(k) => first_hit(input, pats.remove(j), f, e, 0) matches Some(k2) && 0 <= k2 < pats.remove(j).len()
                && pats.remove(j)[k2] == pats[k],
            None => first_hit(input, pats.remove(j), f, e, 0) is None,
        },
{
    let pats2 = pats.remove(j);
    match first_hit(input, pats, f, e, 0) {
        Some(k) => {
            lemma_first_hit_some(input, pats, f, e, 0);
            if k == j {
                let pi = pats[i].0;
                let pj = pats[j].0;
                let s = e + 1 - pj.len();
                let e2 = s + pi.len() - 1;
                assert(pats[i].0.len() > 0);
                assert(input.subrange(s, e2 + 1) =~= input.subrange(s, e + 1).subrange(0, pi.len() as int));
                assert(ends_at(input, pi, f, e2));
                if e2 < e {
                    assert(first_hit(input, pats, f, e2, 0) is None);
                    lemma_first_hit_none(input, pats, f, e2, 0);
                }
                assert(false);
            }
            let k2 = if k < j { k } else { k - 1 };
            assert(pats2[k2] == pats[k]);
            assert forall|q: int| 0 <= q < k2 implies !#[trigger] ends_at(input, pats2[q].0, f, e) by {
                if q < j {
                    assert(pats2[q] == pats[q]);
                } else {
                    assert(pats2[q] == pats[q + 1]);
                }
            }
            lemma_first_hit_is(input, pats2, f, e, k2, 0);
        },
        None => {
            lemma_first_hit_none(input, pats, f, e, 0);
            assert forall|q: int| 0 <= q < pats2.len() implies !#[trigger] ends_at(input, pats2[q].0, f, e) by {
                if q < j {
                    assert(pats2[q] == pats[q]);
                } else {
                    assert(pats2[q] == pats[q + 1]);
                }
            }
            lemma_first_hit_absent(input, pats2, f, e, 0);
        },
    }
}

proof fn lemma_shadowed_output<T>(input: Seq<T>, pats: Patterns<T>, i: int, j: int, f: int, e: int)
    requires
        patterns_nonempty(pats),
        0 <= i < j < pats.len(),
        pats[i].0.len() <= pats[j].0.len(),
        pats[j].0.subrange(0, pats[i].0.len() as int) == pats[i].0,
        0 <= f <= e + 1,
        f <= input.len(),
        forall|e2: int| e2 < e ==> (#[trigger] first_hit(input, pats, f, e2, 0)) is None,
    ensures
        output_from(input, pats, f, e) == output_from(input, pats.remove(j), f, e),
    decreases input.len() - e,
{
    if e < input.len() {
        lemma_shadowed_hit(input, pats, i, j, f, e);
        match first_hit(input, pats, f, e, 0) {
            Some(k) => {
                lemma_first_hit_some(input, pats, f, e, 0);
                assert forall|e2: int| e2 < e + 1 implies (#[trigger] first_hit(input, pats, e + 1, e2, 0)) is None by {
                    lemma_first_hit_absent(input, pats, e + 1, e2, 0);
                }
                lemma_shadowed_output(input, pats, i, j, e + 1, e + 1);
            },
            None => {
                assert(forall|e2: int| e2 < e + 1 ==> (#[trigger] first_hit(input, pats, f, e2, 0)) is None);
                lemma_shadowed_output(input, pats, i, j, f, e + 1);
            },
        }
    }
}

/// A pattern whose search sequence begins with that of an earlier pattern
/// never commits: the earlier one always completes first, or at the same
/// position with a lower rank. Removing it leaves the output unchanged.
pub proof fn lemma_shadowed_pattern_never_commits<T>(input: Seq<T>, pats: Patterns<T>, i: int, j: int)
    requires
        patterns_nonempty(pats),
        0 <= i < j < pats.len(),
        pats[i].0.len() <= pats[j].0.len(),
        pats[j].0.subrange(0, pats[i].0.len() as int) == pats[i].0,
    ensures
        replaced(input, pats) == replaced(input, pats.remove(j)),
{
    assert forall|e2: int| e2 < 0 implies (#[trigger] first_hit(input, pats, 0, e2, 0)) is None by {
        lemma_first_hit_absent(input, pats, 0, e2, 0);
    }
    lemma_shadowed_output(input, pats, i, j, 0, 0);
}


/// `out` arises from `input` by splitting it into single tokens, kept as
/// they are, and windows equal to a search sequence, each replaced by that
/// pattern's replacement.
pub open spec fn is_rewrite<T>(input: Seq<T>, pats: Patterns<T>, out: Seq<T>) -> bool
    decreases input.len(),
{
    if input.len() == 0 {
        out.len() == 0
    } else {
        ||| (out.len() > 0 && out[0] == input[0] && is_rewrite(input.drop_first(), pats, out.drop_first()))
        ||| exists|k: int|
            0 <= k < pats.len() && 0 < (#[trigger] pats[k]).0.len() <= input.len() && input.subrange(
                0,
                pats[k].0.len() as int,
            ) == pats[k].0 && pats[k].1.len() <= out.len() && out.subrange(0, pats[k].1.len() as int)
                == pats[k].1 && is_rewrite(
                input.subrange(pats[k].0.len() as int, input.len() as int),
                pats,
                out.subrange(pats[k].1.len() as int, out.len() as int),
            )
    }
}

proof fn lemma_rewrite_keep_front<T>(a: Seq<T>, b: Seq<T>, pats: Patterns<T>, out: Seq<T>)
    requires
        is_rewrite(b, pats, out),
    ensures
        is_rewrite(a + b, pats, a + out),
    decreases a.len(),
{
    if a.len() > 0 {
        lemma_rewrite_keep_front(a.drop_first(), b, pats, out);
        assert((a + b).drop_first() =~= a.drop_first() + b);
        assert((a + out).drop_first() =~= a.drop_first() + out);
    }
}

proof fn lemma_rewrite_output<T>(input: Seq<T>, pats: Patterns<T>, f: int, e: int)
    requires
        0 <= f <= e + 1,
        f <= input.len(),
    ensures
        is_rewrite(input.subrange(f, input.len() as int), pats, output_from(input, pats, f, e)),
    decreases input.len() - e,
{
    let n = input.len() as int;
    if e >= n {
        let rest = input.subrange(f, n);
        lemma_rewrite_keep_front(rest, Seq::<T>::empty(), pats, Seq::<T>::empty());
        assert(rest + Seq::<T>::empty() =~= rest);
    } else {
        match first_hit(input, pats, f, e, 0) {
            Some(k) => {
                lemma_first_hit_some(input, pats, f, e, 0);
                lemma_rewrite_output(input, pats, e + 1, e + 1);
                let p = pats[k].0;
                let w = pats[k].1;
                let s = e + 1 - p.len();
                let tail_in = input.subrange(e + 1, n);
                let tail_out = output_from(input, pats, e + 1, e + 1);
                let win = input.subrange(s, n);
                assert(win.subrange(0, p.len() as int) =~= p);
                assert(win.subrange(p.len() as int, win.len() as int) =~= tail_in);
                let wo = w + tail_out;
                assert(wo.subrange(0, w.len() as int) =~= w);
                assert(wo.subrange(w.len() as int, wo.len() as int) =~= tail_out);
                assert(is_rewrite(win, pats, wo));
                lemma_rewrite_keep_front(input.subrange(f, s), win, pats, wo);
                assert(input.subrange(f, s) + win =~= input.subrange(f, n));
                assert(input.subrange(f, s) + wo =~= output_from(input, pats, f, e));
            },
            None => {
                lemma_rewrite_output(input, pats, f, e + 1);
            },
        }
    }
}

/// Every token outside a committed match comes out unchanged and in
/// order: the output is the input split into kept tokens and windows
/// equal to a search sequence, each window replaced by that pattern's
/// replacement.
pub proof fn lemma_output_is_rewrite<T>(input: Seq<T>, pats: Patterns<T>)
    ensures
        is_rewrite(input, pats, replaced(input, pats)),
{
    lemma_rewrite_output(input, pats, 0, 0);
    assert(input.subrange(0, input.len() as int) =~= input);
}

} // verus!
