//! The streaming engine: candidate tracking, buffer flushing and commits.
use crate::model::{
    ends_at, first_hit, lemma_first_hit_none, lemma_first_hit_some, output_from, patterns_nonempty,
    replaced, Patterns,
};
use std::collections::VecDeque;
use vstd::laws_eq::obeys_concrete_eq;
use vstd::prelude::*;

verus! {

/// A search sequence and the tokens that replace each occurrence of it.
pub struct Replacement<'a, T> {
    search_for: &'a [T],
    replace_with: &'a [T],
}

impl<'a, T> View for Replacement<'a, T> {
    type V = (Seq<T>, Seq<T>);

    closed spec fn view(&self) -> (Seq<T>, Seq<T>) {
        (self.search_for@, self.replace_with@)
    }
}

impl<'a, T> Replacement<'a, T> {
    pub fn new(search_for: &'a [T], replace_with: &'a [T]) -> (r: Replacement<'a, T>)
        requires
            search_for@.len() > 0,
        ensures
            r@ == (search_for@, replace_with@),
    {
        Replacement { search_for: search_for, replace_with: replace_with }
    }

    /// The search sequence.
    pub fn search_for(&self) -> (r: &'a [T])
        ensures
            r@ == self@.0,
    {
        self.search_for
    }
}

/// One pattern together with the starts of its open partial matches.
struct ReplaceState<'a, T> {
    search_for: &'a [T],
    replace_with: &'a [T],
    /// Positions, in increasing order, where a partial match begins.
    candidates: Vec<usize>,
}

impl<'a, T> ReplaceState<'a, T> {
    fn new(search_for: &'a [T], replace_with: &'a [T]) -> (r: ReplaceState<'a, T>)
        ensures
            r.search_for@ == search_for@,
            r.replace_with@ == replace_with@,
            r.candidates@.len() == 0,
    {
        ReplaceState { search_for: search_for, replace_with: replace_with, candidates: Vec::new() }
    }
}

/// `input[s..i]` is a non-empty prefix of `p` shorter than `limit`, and
/// begins at or after `start`.
pub open spec fn prefix_at<T>(input: Seq<T>, p: Seq<T>, start: int, s: int, i: int, limit: int) -> bool {
    &&& 0 <= start <= s < i <= input.len()
    &&& i - s < limit
    &&& i - s <= p.len()
    &&& input.subrange(s, i) == p.subrange(0, i - s)
}

pub open spec fn increasing(v: Seq<usize>) -> bool {
    forall|a: int, b: int| 0 <= a < b < v.len() ==> v[a] < v[b]
}

/// `c` lists, in increasing order, exactly the starts `s` of prefixes
/// `input[s..i]` of `p` shorter than `limit` that begin at or after `start`.
pub open spec fn tracks<T>(c: Seq<usize>, input: Seq<T>, p: Seq<T>, start: int, i: int, limit: int) -> bool {
    &&& increasing(c)
    &&& forall|a: int| 0 <= a < c.len() ==> prefix_at(input, p, start, #[trigger] c[a] as int, i, limit)
    &&& forall|s: usize| prefix_at(input, p, start, s as int, i, limit) ==> #[trigger] c.contains(s)
}

/// `input` begins with `seen`, and is exactly `seen` once the source has ended.
pub open spec fn continues<T>(seen: Seq<T>, ended: bool, input: Seq<T>) -> bool {
    &&& seen.len() <= input.len()
    &&& input.subrange(0, seen.len() as int) == seen
    &&& ended ==> input.len() == seen.len()
}

/// A prefix that lies within what has been seen reads the same in every
/// continuation.
proof fn lemma_prefix_at_transfer<T>(seen: Seq<T>, input: Seq<T>, p: Seq<T>, f: int, s: int, i: int, limit: int)
    requires
        seen.len() <= input.len(),
        input.subrange(0, seen.len() as int) == seen,
        i <= seen.len(),
    ensures
        prefix_at(input, p, f, s, i, limit) == prefix_at(seen, p, f, s, i, limit),
{
    if 0 <= s <= i {
        assert(input.subrange(s, i) =~= seen.subrange(s, i));
    }
}

proof fn lemma_tracks_transfer<T>(c: Seq<usize>, seen: Seq<T>, input: Seq<T>, p: Seq<T>, f: int, i: int, limit: int)
    requires
        seen.len() <= input.len(),
        input.subrange(0, seen.len() as int) == seen,
        i <= seen.len(),
    ensures
        tracks(c, input, p, f, i, limit) == tracks(c, seen, p, f, i, limit),
{
    assert forall|s: int| prefix_at(input, p, f, s, i, limit) == prefix_at(seen, p, f, s, i, limit) by {
        lemma_prefix_at_transfer(seen, input, p, f, s, i, limit);
    }
}

proof fn lemma_first_hit_transfer<T>(seen: Seq<T>, input: Seq<T>, pats: Patterns<T>, f: int, e: int, k: int)
    requires
        seen.len() <= input.len(),
        input.subrange(0, seen.len() as int) == seen,
        0 <= e < seen.len(),
    ensures
        first_hit(input, pats, f, e, k) == first_hit(seen, pats, f, e, k),
    decreases pats.len() - k,
{
    if k < pats.len() {
        let p = pats[k].0;
        if 0 < p.len() && 0 <= f <= e + 1 - p.len() {
            assert(input.subrange(e + 1 - p.len(), e + 1) =~= seen.subrange(e + 1 - p.len(), e + 1));
        }
        lemma_first_hit_transfer(seen, input, pats, f, e, k + 1);
    }
}

proof fn lemma_push_keeps(v: Seq<usize>, x: usize)
    ensures
        v.push(x).contains(x),
        forall|y: usize| v.contains(y) ==> #[trigger] v.push(x).contains(y),
{
    assert(v.push(x)[v.len() as int] == x);
    assert forall|y: usize| v.contains(y) implies #[trigger] v.push(x).contains(y) by {
        let b = choose|b: int| 0 <= b < v.len() && v[b] == y;
        assert(v.push(x)[b] == y);
    }
}

/// A prefix one token longer is a prefix one token shorter, when the start
/// stays before the end.
proof fn lemma_prefix_shorten<T>(input: Seq<T>, p: Seq<T>, start: int, s: int, i: int)
    requires
        prefix_at(input, p, start, s, i + 1, (p.len() + 1) as int),
        s < i,
    ensures
        prefix_at(input, p, start, s, i, p.len() as int),
        input[i] == p[i - s],
{
    assert(input.subrange(s, i + 1)[i - s] == input[i]);
    assert(input.subrange(s, i) =~= input.subrange(s, i + 1).subrange(0, i - s));
    assert(p.subrange(0, i - s) =~= p.subrange(0, i + 1 - s).subrange(0, i - s));
}

proof fn lemma_prefix_extend<T>(input: Seq<T>, p: Seq<T>, start: int, s: int, i: int)
    requires
        prefix_at(input, p, start, s, i, p.len() as int),
        i < input.len(),
        input[i] == p[i - s],
    ensures
        prefix_at(input, p, start, s, i + 1, (p.len() + 1) as int),
{
    assert forall|j: int| 0 <= j < i + 1 - s implies #[trigger] input.subrange(s, i + 1)[j] == p.subrange(
        0,
        i + 1 - s,
    )[j] by {
        if j < i - s {
            assert(input.subrange(s, i)[j] == p.subrange(0, i - s)[j]);
        }
    }
    assert(input.subrange(s, i + 1) =~= p.subrange(0, i + 1 - s));
}

/// Where an occurrence of `p` ends at or after `i`, the part of it that lies
/// before `i` is an open prefix.
proof fn lemma_open_before_end<T>(input: Seq<T>, p: Seq<T>, start: int, i: int, e: int)
    requires
        ends_at(input, p, start, e),
        e >= i,
        e + 1 - p.len() < i,
    ensures
        prefix_at(input, p, start, e + 1 - p.len(), i, p.len() as int),
{
    let s = e + 1 - p.len();
    assert(input.subrange(s, i) =~= input.subrange(s, e + 1).subrange(0, i - s));
    assert(p.subrange(0, i - s) =~= p.subrange(0, i - s));
}

/// Moving the start past positions where no occurrence that ends at or
/// after `e` can begin leaves those positions verbatim in front.
proof fn lemma_first_hit_shift<T>(input: Seq<T>, pats: Patterns<T>, f: int, f2: int, e: int, k: int)
    requires
        0 <= f <= f2,
        0 <= k,
        forall|j: int|
            k <= j < pats.len() && ends_at(input, #[trigger] pats[j].0, f, e) ==> e + 1 - pats[j].0.len()
                >= f2,
    ensures
        first_hit(input, pats, f, e, k) == first_hit(input, pats, f2, e, k),
    decreases pats.len() - k,
{
    if k < pats.len() {
        lemma_first_hit_shift(input, pats, f, f2, e, k + 1);
    }
}

proof fn lemma_shift<T>(input: Seq<T>, pats: Patterns<T>, f: int, f2: int, e: int)
    requires
        0 <= f <= f2 <= input.len(),
        forall|j: int, e2: int|
            0 <= j < pats.len() && e <= e2 && #[trigger] ends_at(input, pats[j].0, f, e2) ==> e2 + 1
                - pats[j].0.len() >= f2,
    ensures
        output_from(input, pats, f, e) == input.subrange(f, f2) + output_from(input, pats, f2, e),
    decreases input.len() - e,
{
    if e >= input.len() {
        assert(input.subrange(f, input.len() as int) =~= input.subrange(f, f2) + input.subrange(
            f2,
            input.len() as int,
        ));
    } else {
        assert forall|j: int| 0 <= j < pats.len() && ends_at(input, #[trigger] pats[j].0, f, e) implies e
            + 1 - pats[j].0.len() >= f2 by {}
        lemma_first_hit_shift(input, pats, f, f2, e, 0);
        match first_hit(input, pats, f, e, 0) {
            Some(k) => {
                lemma_first_hit_some(input, pats, f2, e, 0);
                let s = e + 1 - pats[k].0.len();
                assert(input.subrange(f, s) =~= input.subrange(f, f2) + input.subrange(f2, s));
                assert(output_from(input, pats, f, e) =~= input.subrange(f, f2) + output_from(
                    input,
                    pats,
                    f2,
                    e,
                ));
            },
            None => {
                lemma_shift(input, pats, f, f2, e + 1);
            },
        }
    }
}

/// The candidates of `st` after the token `item` at position `i`: those
/// that still agree with the pattern, and `i` itself where the pattern
/// begins with `item`.
fn advance<'a, T: Copy + PartialEq>(
    st: &ReplaceState<'a, T>,
    i: usize,
    item: T,
    start: Ghost<int>,
    input: Ghost<Seq<T>>,
) -> (r: Vec<usize>)
    requires
        obeys_concrete_eq::<T>(),
        st.search_for@.len() > 0,
        0 <= start@ <= i < input@.len(),
        input@[i as int] == item,
        tracks(st.candidates@, input@, st.search_for@, start@, i as int, st.search_for@.len() as int),
    ensures
        tracks(r@, input@, st.search_for@, start@, i + 1, (st.search_for@.len() + 1) as int),
{
    proof {
        reveal(obeys_concrete_eq);
    }
    let ghost p = st.search_for@;
    let ghost inp = input@;
    let ghost f = start@;
    let c = &st.candidates;
    let mut r: Vec<usize> = Vec::new();
    let mut j: usize = 0;
    proof {
        assert forall|s2: usize|
            prefix_at(inp, p, f, s2 as int, i + 1, (p.len() + 1) as int) && s2 < i && (j < c.len() ==> s2
                < c@[j as int]) implies #[trigger] r@.contains(s2) by {
            lemma_prefix_shorten(inp, p, f, s2 as int, i as int);
            assert(c@.contains(s2));
            let b = choose|b: int| 0 <= b < c@.len() && c@[b] == s2;
            if b > 0 {
                assert(c@[0] < c@[b]);
            }
        }
    }
    while j < c.len()
        invariant
            j <= c.len(),
            c@ == st.candidates@,
            p == st.search_for@,
            p.len() > 0,
            inp == input@,
            f == start@,
            0 <= f <= i,
            tracks(c@, inp, p, f, i as int, p.len() as int),
            inp[i as int] == item,
            i < inp.len(),
            obeys_concrete_eq::<T>(),
            increasing(r@),
            forall|a: int|
                0 <= a < r.len() ==> prefix_at(inp, p, f, #[trigger] r@[a] as int, i + 1, (p.len() + 1) as int)
                    && (j < c.len() ==> r@[a] < c@[j as int]) && r@[a] < i,
            forall|s: usize|
                prefix_at(inp, p, f, s as int, i + 1, (p.len() + 1) as int) && s < i && (j < c.len() ==> s
                    < c@[j as int]) ==> #[trigger] r@.contains(s),
        decreases c.len() - j,
    {
        let s = c[j];
        proof {
            reveal(obeys_concrete_eq);
        }
        assert(prefix_at(inp, p, f, c@[j as int] as int, i as int, p.len() as int));
        let keep = st.search_for[i - s] == item;
        let ghost r_old = r@;
        let ghost jj = j as int;
        if keep {
            proof {
                lemma_prefix_extend(inp, p, f, s as int, i as int);
            }
            r.push(s);
            proof {
                lemma_push_keeps(r_old, s);
            }
        }
        j = j + 1;
        proof {
            assert forall|s2: usize|
                prefix_at(inp, p, f, s2 as int, i + 1, (p.len() + 1) as int) && s2 < i && (j < c.len() ==> s2
                    < c@[j as int]) implies #[trigger] r@.contains(s2) by {
                if s2 < s {
                    assert(r_old.contains(s2));
                } else if s2 == s {
                    lemma_prefix_shorten(inp, p, f, s as int, i as int);
                    assert(keep);
                } else {
                    lemma_prefix_shorten(inp, p, f, s2 as int, i as int);
                    assert(c@.contains(s2));
                    let b = choose|b: int| 0 <= b < c@.len() && c@[b] == s2;
                    if b < jj {
                        assert(c@[b] < c@[jj]);
                    }
                    if b > jj + 1 {
                        assert(c@[jj + 1] < c@[b]);
                    }
                    assert(false);
                }
            }
        }
    }
    let ghost r_old = r@;
    if st.search_for[0] == item {
        proof {
            assert(inp.subrange(i as int, i + 1) =~= p.subrange(0, 1));
        }
        r.push(i);
        proof {
            lemma_push_keeps(r_old, i);
        }
    }
    proof {
        assert forall|s2: usize| prefix_at(inp, p, f, s2 as int, i + 1, (p.len() + 1) as int) implies #[trigger] r@.contains(s2) by {
            if s2 == i {
                assert(inp.subrange(i as int, i + 1)[0] == p.subrange(0, 1)[0]);
            } else {
                assert(r_old.contains(s2));
            }
        }
    }
    r
}

/// Appends `src[lo..hi]` to the back of `out`.
fn append_range<T: Copy>(out: &mut VecDeque<T>, src: &[T], lo: usize, hi: usize)
    requires
        lo <= hi <= src@.len(),
    ensures
        final(out)@ == old(out)@ + src@.subrange(lo as int, hi as int),
{
    let mut j: usize = lo;
    while j < hi
        invariant
            lo <= j <= hi <= src@.len(),
            out@ == old(out)@ + src@.subrange(lo as int, j as int),
        decreases hi - j,
    {
        out.push_back(src[j]);
        assert(out@ =~= old(out)@ + src@.subrange(lo as int, j + 1));
        j = j + 1;
    }
}

/// The tokens of `v` from position `lo` on.
fn tail_of<T: Copy>(v: &Vec<T>, lo: usize) -> (r: Vec<T>)
    requires
        lo <= v@.len(),
    ensures
        r@ == v@.subrange(lo as int, v@.len() as int),
{
    let mut r: Vec<T> = Vec::new();
    let mut j: usize = lo;
    while j < v.len()
        invariant
            lo <= j <= v@.len(),
            r@ == v@.subrange(lo as int, j as int),
        decreases v@.len() - j,
    {
        r.push(v[j]);
        assert(r@ =~= v@.subrange(lo as int, j + 1));
        j = j + 1;
    }
    r
}


/// A find-and-replace run that takes its input one token at a time and
/// hands out each output token as soon as it is decided.
pub struct Replace<'a, T> {
    buffer_out: VecDeque<T>,
    buffer_in: Vec<T>,
    replace_states: Vec<ReplaceState<'a, T>>,
    /// How many tokens have been consumed.
    index: usize,
    /// Every position before this one has been emitted or replaced.
    flushed_index: usize,
    /// Whether the source has ended.
    ended: bool,
    /// The tokens consumed so far.
    seen: Ghost<Seq<T>>,
    /// The tokens handed out so far.
    emitted: Ghost<Seq<T>>,
}

/// The patterns of a list of states, in order.
spec fn patterns_of<'a, T>(states: Seq<ReplaceState<'a, T>>) -> Patterns<T> {
    Seq::new(states.len(), |k: int| (states[k].search_for@, states[k].replace_with@))
}

impl<'a, T: Copy + PartialEq> Replace<'a, T> {
    /// The tokens consumed so far.
    pub closed spec fn seen(&self) -> Seq<T> {
        self.seen@
    }

    /// The patterns, in declaration order.
    pub closed spec fn patterns(&self) -> Patterns<T> {
        patterns_of(self.replace_states@)
    }

    /// The tokens handed out so far.
    pub closed spec fn emitted(&self) -> Seq<T> {
        self.emitted@
    }

    /// Decided output tokens not yet handed out.
    pub closed spec fn ready(&self) -> Seq<T> {
        self.buffer_out@
    }

    /// Consumed tokens not yet decided.
    pub closed spec fn pending(&self) -> Seq<T> {
        self.buffer_in@
    }

    /// How many tokens have been consumed.
    pub closed spec fn position(&self) -> int {
        self.index as int
    }

    /// Every position before this one has been emitted or replaced.
    pub closed spec fn watermark(&self) -> int {
        self.flushed_index as int
    }

    /// The starts of the open partial matches of pattern `k`, in increasing order.
    pub closed spec fn candidates(&self, k: int) -> Seq<usize> {
        self.replace_states@[k].candidates@
    }

    /// Whether the source has ended.
    pub closed spec fn ended(&self) -> bool {
        self.ended
    }

    pub closed spec fn wf(&self) -> bool {
        let seen = self.seen@;
        let pats = self.patterns();
        let f = self.flushed_index as int;
        let i = self.index as int;
        &&& obeys_concrete_eq::<T>()
        &&& patterns_nonempty(pats)
        &&& f <= i == seen.len()
        &&& self.buffer_in@ == seen.subrange(f, i)
        &&& forall|k: int|
            0 <= k < self.replace_states.len() ==> tracks(
                (#[trigger] self.replace_states@[k]).candidates@,
                seen,
                pats[k].0,
                f,
                i,
                pats[k].0.len() as int,
            )
        &&& f == i || exists|k: int|
            0 <= k < self.replace_states.len() && (#[trigger] self.replace_states@[k]).candidates@.len() > 0
                && self.replace_states@[k].candidates@[0] == f
        &&& self.ended ==> f == i
        &&& forall|input: Seq<T>|
            #[trigger] continues(seen, self.ended, input) ==> self.emitted@ + self.buffer_out@ + output_from(
                input,
                pats,
                f,
                i,
            ) == replaced(input, pats)
    }

    fn adapt(replace_states: Vec<ReplaceState<'a, T>>) -> (r: Replace<'a, T>)
        requires
            obeys_concrete_eq::<T>(),
            patterns_nonempty(patterns_of(replace_states@)),
            forall|k: int| 0 <= k < replace_states.len() ==> (#[trigger] replace_states@[k]).candidates@.len() == 0,
        ensures
            r.wf(),
            r.replace_states@ == replace_states@,
            r.index == 0,
            r.flushed_index == 0,
            r.buffer_in@.len() == 0,
            r.buffer_out@.len() == 0,
            !r.ended,
            r.seen@ == Seq::<T>::empty(),
            r.emitted@ == Seq::<T>::empty(),
    {
        let r = Replace {
            buffer_out: VecDeque::new(),
            buffer_in: Vec::new(),
            replace_states: replace_states,
            index: 0,
            flushed_index: 0,
            ended: false,
            seen: Ghost(Seq::empty()),
            emitted: Ghost(Seq::empty()),
        };
        proof {
            assert(r.buffer_in@ =~= r.seen@.subrange(0, 0));
            assert forall|input: Seq<T>| #[trigger] continues(r.seen@, r.ended, input) implies r.emitted@
                + r.buffer_out@ + output_from(input, r.patterns(), 0, 0) == replaced(input, r.patterns()) by {
                assert(r.emitted@ + r.buffer_out@ + output_from(input, r.patterns(), 0, 0) =~= replaced(
                    input,
                    r.patterns(),
                ));
            }
        }
        r
    }

    /// A run with several patterns; where two complete at the same
    /// position, the one listed first wins.
    pub fn new(replacements: Vec<Replacement<'a, T>>) -> (r: Replace<'a, T>)
        requires
            obeys_concrete_eq::<T>(),
            forall|k: int| 0 <= k < replacements.len() ==> (#[trigger] replacements@[k])@.0.len() > 0,
        ensures
            r.wf(),
            r.patterns() == replacements@.map_values(|x: Replacement<'a, T>| x@),
            r.position() == 0,
            r.watermark() == 0,
            r.pending().len() == 0,
            r.ready().len() == 0,
            forall|k: int| 0 <= k < replacements.len() ==> (#[trigger] r.candidates(k)).len() == 0,
            !r.ended(),
            r.seen() == Seq::<T>::empty(),
            r.emitted() == Seq::<T>::empty(),
    {
        let mut states: Vec<ReplaceState<'a, T>> = Vec::new();
        let mut k: usize = 0;
        while k < replacements.len()
            invariant
                k <= replacements.len(),
                states.len() == k,
                forall|m: int| 0 <= m < k ==> (#[trigger] states@[m]).candidates@.len() == 0,
                patterns_of(states@) == replacements@.subrange(0, k as int).map_values(
                    |x: Replacement<'a, T>| x@,
                ),
            decreases replacements.len() - k,
        {
            let rep = &replacements[k];
            let ghost before = states@;
            states.push(ReplaceState::new(rep.search_for, rep.replace_with));
            proof {
                assert forall|m: int| 0 <= m < k + 1 implies #[trigger] patterns_of(states@)[m]
                    == replacements@.subrange(0, k + 1).map_values(|x: Replacement<'a, T>| x@)[m] by {
                    if m < k {
                        assert(states@[m] == before[m]);
                        assert(patterns_of(before)[m] == replacements@.subrange(0, k as int).map_values(
                            |x: Replacement<'a, T>| x@,
                        )[m]);
                    } else {
                        assert(replacements@[m] == *rep);
                    }
                }
                assert(patterns_of(states@) =~= replacements@.subrange(0, k + 1).map_values(
                    |x: Replacement<'a, T>| x@,
                ));
            }
            k = k + 1;
        }
        proof {
            assert(replacements@.subrange(0, k as int) =~= replacements@);
        }
        Replace::adapt(states)
    }

    /// Whether the source has ended.
    pub fn is_ended(&self) -> (r: bool)
        ensures
            r == self.ended(),
    {
        self.ended
    }

    /// How many tokens have been consumed.
    pub fn consumed(&self) -> (r: usize)
        ensures
            r == self.position(),
    {
        self.index
    }

    /// The position up to which pending tokens can no longer be part of a
    /// match: the smallest start of an open candidate, or the number of
    /// tokens consumed where there is none.
    fn calc_flushable_index(&self) -> (r: usize)
        ensures
            r <= self.index,
            forall|k: int|
                0 <= k < self.replace_states.len() && (#[trigger] self.replace_states@[k]).candidates@.len() > 0
                    ==> r <= self.replace_states@[k].candidates@[0],
            r == self.index || exists|k: int|
                0 <= k < self.replace_states.len() && (#[trigger] self.replace_states@[k]).candidates@.len() > 0
                    && r == self.replace_states@[k].candidates@[0],
    {
        let mut r: usize = self.index;
        let mut k: usize = 0;
        while k < self.replace_states.len()
            invariant
                k <= self.replace_states.len(),
                r <= self.index,
                forall|m: int|
                    0 <= m < k && (#[trigger] self.replace_states@[m]).candidates@.len() > 0 ==> r
                        <= self.replace_states@[m].candidates@[0],
                r == self.index || exists|m: int|
                    0 <= m < k && (#[trigger] self.replace_states@[m]).candidates@.len() > 0 && r
                        == self.replace_states@[m].candidates@[0],
            decreases self.replace_states.len() - k,
        {
            let c = &self.replace_states[k].candidates;
            if c.len() > 0 && c[0] < r {
                r = c[0];
                assert(self.replace_states@[k as int].candidates@.len() > 0);
            }
            k = k + 1;
        }
        r
    }
    /// The lowest rank whose pattern has just been completed.
    fn matching_term(&self) -> (r: Option<usize>)
        requires
            0 < self.index <= self.seen@.len(),
            self.flushed_index <= self.index,
            patterns_nonempty(self.patterns()),
            forall|k: int|
                0 <= k < self.replace_states.len() ==> tracks(
                    (#[trigger] self.replace_states@[k]).candidates@,
                    self.seen@,
                    self.patterns()[k].0,
                    self.flushed_index as int,
                    self.index as int,
                    (self.patterns()[k].0.len() + 1) as int,
                ),
        ensures
            r matches Some(k) ==> first_hit(self.seen@, self.patterns(), self.flushed_index as int, self.index - 1, 0) == Some(k as int),
            r is None ==> first_hit(self.seen@, self.patterns(), self.flushed_index as int, self.index - 1, 0) is None,
    {
        let ghost input = self.seen@;
        let ghost pats = self.patterns();
        let ghost f = self.flushed_index as int;
        let ghost e = self.index - 1;
        let mut k: usize = 0;
        while k < self.replace_states.len()
            invariant
                k <= self.replace_states.len(),
                first_hit(input, pats, f, e, 0) == first_hit(input, pats, f, e, k as int),
                input == self.seen@,
                pats == self.patterns(),
                f == self.flushed_index,
                e == self.index - 1,
                0 < self.index <= self.seen@.len(),
                self.flushed_index <= self.index,
                patterns_nonempty(pats),
                forall|m: int|
                    0 <= m < self.replace_states.len() ==> tracks(
                        (#[trigger] self.replace_states@[m]).candidates@,
                        input,
                        pats[m].0,
                        f,
                        e + 1,
                        (pats[m].0.len() + 1) as int,
                    ),
            decreases self.replace_states.len() - k,
        {
            let st = &self.replace_states[k];
            let c = &st.candidates;
            let ghost p = pats[k as int].0;
            assert(self.replace_states@[k as int].candidates@ == c@);
            assert(p == st.search_for@);
            assert(tracks(c@, input, p, f, e + 1, (p.len() + 1) as int));
            if c.len() > 0 {
                assert(prefix_at(input, p, f, c@[0] as int, e + 1, (p.len() + 1) as int));
            }
            let full = c.len() > 0 && self.index - c[0] == st.search_for.len();
            proof {
                if full {
                    assert(prefix_at(input, p, f, c@[0] as int, e + 1, (p.len() + 1) as int));
                    assert(input.subrange(e + 1 - p.len(), e + 1) =~= p.subrange(0, p.len() as int));
                    assert(p.subrange(0, p.len() as int) =~= p);
                } else if ends_at(input, p, f, e) {
                    let s = (e + 1 - p.len()) as usize;
                    assert(p.subrange(0, p.len() as int) =~= p);
                    assert(prefix_at(input, p, f, s as int, e + 1, (p.len() + 1) as int));
                    assert(c@.contains(s));
                    let b = choose|b: int| 0 <= b < c@.len() && c@[b] == s;
                    assert(prefix_at(input, p, f, c@[0] as int, e + 1, (p.len() + 1) as int));
                    if b > 0 {
                        assert(c@[0] < c@[b]);
                    }
                }
            }
            if full {
                return Some(k);
            }
            k = k + 1;
        }
        None
    }

    /// Consumes the next token of the source: updates every pattern's
    /// candidates, then either commits the lowest-ranked completed match,
    /// keeping the pending tokens before it, or flushes the pending tokens
    /// that no open candidate covers.
    #[verifier::rlimit(80)]
    pub fn push(&mut self, item: T)
        requires
            old(self).wf(),
            !old(self).ended(),
            old(self).position() < usize::MAX,
        ensures
            final(self).wf(),
            !final(self).ended(),
            final(self).patterns() == old(self).patterns(),
            final(self).emitted() == old(self).emitted(),
            final(self).seen() == old(self).seen().push(item),
            final(self).position() == old(self).position() + 1,
            old(self).watermark() <= final(self).watermark() <= final(self).position(),
            final(self).pending() == final(self).seen().subrange(final(self).watermark(), final(self).position()),
            forall|k: int|
                0 <= k < final(self).patterns().len() ==> tracks(
                    #[trigger] final(self).candidates(k),
                    final(self).seen(),
                    final(self).patterns()[k].0,
                    final(self).watermark(),
                    final(self).position(),
                    final(self).patterns()[k].0.len() as int,
                ),
            match first_hit(final(self).seen(), old(self).patterns(), old(self).watermark(), old(self).position(), 0) {
                Some(k) => {
                    &&& final(self).ready() == old(self).ready() + final(self).seen().subrange(
                        old(self).watermark(),
                        final(self).position() - old(self).patterns()[k].0.len(),
                    ) + old(self).patterns()[k].1
                    &&& final(self).watermark() == final(self).position()
                    &&& forall|j: int| 0 <= j < final(self).patterns().len() ==> (#[trigger] final(self).candidates(j)).len() == 0
                },
                None => {
                    &&& final(self).ready() == old(self).ready() + final(self).seen().subrange(
                        old(self).watermark(),
                        final(self).watermark(),
                    )
                    &&& forall|j: int|
                        0 <= j < final(self).patterns().len() && (#[trigger] final(self).candidates(j)).len() > 0
                            ==> final(self).watermark() <= final(self).candidates(j)[0]
                    &&& (final(self).watermark() == final(self).position() || exists|j: int|
                        0 <= j < final(self).patterns().len() && (#[trigger] final(self).candidates(j)).len() > 0
                            && final(self).watermark() == final(self).candidates(j)[0])
                },
            },
            final(self).pending().len() == 0 || exists|k: int|
                0 <= k < final(self).patterns().len() && final(self).pending().len() < (
                #[trigger] final(self).patterns()[k]).0.len(),
    {
        let ghost input = self.seen@.push(item);
        let ghost pats = self.patterns();
        let ghost f = self.flushed_index as int;
        let ghost bo = self.buffer_out@;
        let ghost em = self.emitted@;
        let i = self.index;
        proof {
            assert(input.subrange(0, i as int) =~= self.seen@);
            assert forall|m: int| 0 <= m < self.replace_states.len() implies tracks(
                (#[trigger] self.replace_states@[m]).candidates@,
                input,
                pats[m].0,
                f,
                i as int,
                pats[m].0.len() as int,
            ) by {
                lemma_tracks_transfer(self.replace_states@[m].candidates@, self.seen@, input, pats[m].0, f, i as int, pats[m].0.len() as int);
            }
            // the old equation, for every continuation of the new input
            assert forall|inp: Seq<T>| #[trigger] continues(input, false, inp) implies em + bo + output_from(inp, pats, f, i as int)
                == replaced(inp, pats) by {
                assert(inp.subrange(0, i as int) =~= input.subrange(0, i as int));
                assert(continues(self.seen@, self.ended, inp));
            }
        }
        let n = self.replace_states.len();
        let mut k: usize = 0;
        while k < n
            invariant
                n == self.replace_states.len(),
                k <= n,
                i == old(self).index,
                i < input.len(),
                item == input[i as int],
                self.seen == old(self).seen,
                self.ended == old(self).ended,
                self.index == i,
                self.flushed_index == f,
                self.buffer_in == old(self).buffer_in,
                self.buffer_out == old(self).buffer_out,
                self.emitted == old(self).emitted,
                self.patterns() == pats,
                obeys_concrete_eq::<T>(),
                patterns_nonempty(pats),
                0 <= f <= i,
                forall|m: int|
                    0 <= m < k ==> tracks(
                        (#[trigger] self.replace_states@[m]).candidates@,
                        input,
                        pats[m].0,
                        f,
                        i + 1,
                        (pats[m].0.len() + 1) as int,
                    ),
                forall|m: int|
                    k <= m < n ==> tracks(
                        (#[trigger] self.replace_states@[m]).candidates@,
                        input,
                        pats[m].0,
                        f,
                        i as int,
                        pats[m].0.len() as int,
                    ),
            decreases n - k,
        {
            assert(pats[k as int].0 == self.replace_states@[k as int].search_for@);
            let c = advance(&self.replace_states[k], i, item, Ghost(f), Ghost(input));
            let st = ReplaceState {
                search_for: self.replace_states[k].search_for,
                replace_with: self.replace_states[k].replace_with,
                candidates: c,
            };
            let ghost before = self.replace_states@;
            self.replace_states.set(k, st);
            proof {
                assert(patterns_of(self.replace_states@) =~= patterns_of(before));
            }
            k = k + 1;
        }
        self.index = i + 1;
        self.seen = Ghost(input);
        self.buffer_in.push(item);
        proof {
            assert(self.buffer_in@ =~= input.subrange(f, i + 1));
        }
        let flush_index = self.calc_flushable_index();
        match self.matching_term() {
            None => {
                proof {
                    lemma_first_hit_none(input, pats, f, i as int, 0);
                    assert forall|m: int| 0 <= m < n implies tracks(
                        (#[trigger] self.replace_states@[m]).candidates@,
                        input,
                        pats[m].0,
                        flush_index as int,
                        i + 1,
                        pats[m].0.len() as int,
                    ) by {
                        let c = self.replace_states@[m].candidates@;
                        let p = pats[m].0;
                        assert(tracks(c, input, p, f, i + 1, (p.len() + 1) as int));
                        assert(!ends_at(input, p, f, i as int));
                        assert forall|a: int| 0 <= a < c.len() implies prefix_at(
                            input,
                            p,
                            flush_index as int,
                            #[trigger] c[a] as int,
                            i + 1,
                            p.len() as int,
                        ) by {
                            assert(prefix_at(input, p, f, c[a] as int, i + 1, (p.len() + 1) as int));
                            if i + 1 - c[a] == p.len() {
                                assert(p.subrange(0, p.len() as int) =~= p);
                            }
                            if a > 0 {
                                assert(c[0] < c[a]);
                            }
                        }
                        assert forall|s: usize| prefix_at(input, p, flush_index as int, s as int, i + 1, p.len() as int) implies #[trigger] c.contains(s) by {
                            assert(prefix_at(input, p, f, s as int, i + 1, (p.len() + 1) as int));
                        }
                    }
                    // in every continuation, the output up to the flush point
                    // is the pending input
                    assert forall|inp: Seq<T>| #[trigger] continues(input, false, inp) implies output_from(inp, pats, f, i as int)
                        == inp.subrange(f, flush_index as int) + output_from(inp, pats, flush_index as int, i + 1) by {
                        lemma_first_hit_transfer(input, inp, pats, f, i as int, 0);
                        assert forall|j: int, e2: int|
                            0 <= j < pats.len() && i + 1 <= e2 && #[trigger] ends_at(inp, pats[j].0, f, e2)
                            implies e2 + 1 - pats[j].0.len() >= flush_index by {
                            let p = pats[j].0;
                            let s = e2 + 1 - p.len();
                            if s < i + 1 {
                                lemma_open_before_end(inp, p, f, i + 1, e2);
                                lemma_prefix_at_transfer(input, inp, p, f, s, i + 1, p.len() as int);
                                let c = self.replace_states@[j].candidates@;
                                assert(tracks(c, input, p, f, i + 1, (p.len() + 1) as int));
                                assert(prefix_at(input, p, f, s, i + 1, (p.len() + 1) as int));
                                assert(c.contains(s as usize));
                                let b = choose|b: int| 0 <= b < c.len() && c[b] == s as usize;
                                if b > 0 {
                                    assert(c[0] < c[b]);
                                }
                            }
                        }
                        lemma_shift(inp, pats, f, flush_index as int, i + 1);
                        assert(inp.subrange(f, flush_index as int) =~= input.subrange(f, flush_index as int));
                    }
                }
                proof {
                    if flush_index != i + 1 {
                        let j = choose|j: int|
                            0 <= j < self.replace_states.len() && (#[trigger] self.replace_states@[j]).candidates@.len() > 0
                                && flush_index == self.replace_states@[j].candidates@[0];
                        assert(tracks(self.replace_states@[j].candidates@, input, pats[j].0, flush_index as int, i + 1, pats[j].0.len() as int));
                        assert(prefix_at(input, pats[j].0, flush_index as int, self.replace_states@[j].candidates@[0] as int, i + 1, pats[j].0.len() as int));
                    }
                    assert(flush_index >= f);
                }
                if flush_index > self.flushed_index {
                    let unflushed = flush_index - self.flushed_index;
                    append_range(&mut self.buffer_out, self.buffer_in.as_slice(), 0, unflushed);
                    self.buffer_in = tail_of(&self.buffer_in, unflushed);
                    self.flushed_index = flush_index;
                    proof {
                        assert(self.buffer_in@ =~= input.subrange(flush_index as int, i + 1));
                        assert(input.subrange(f, i + 1).subrange(0, unflushed as int) =~= input.subrange(f, flush_index as int));
                        assert(self.buffer_out@ == bo + input.subrange(f, flush_index as int));
                    }
                } else {
                    proof {
                        assert(input.subrange(f, f) =~= Seq::<T>::empty());
                        assert(bo + input.subrange(f, f) =~= bo);
                    }
                }
                proof {
                    assert forall|inp: Seq<T>| #[trigger] continues(input, false, inp) implies self.emitted@ + self.buffer_out@
                        + output_from(inp, pats, flush_index as int, i + 1) == replaced(inp, pats) by {
                        assert(inp.subrange(f, flush_index as int) =~= input.subrange(f, flush_index as int));
                        assert(self.emitted@ + self.buffer_out@ + output_from(inp, pats, flush_index as int, i + 1)
                            =~= em + bo + output_from(inp, pats, f, i as int));
                    }
                    assert(self.buffer_out@ == bo + self.seen@.subrange(f, self.flushed_index as int));
                    assert(forall|j: int|
                        0 <= j < self.patterns().len() && (#[trigger] self.candidates(j)).len() > 0
                            ==> self.watermark() <= self.candidates(j)[0]);
                    assert(self.flushed_index == flush_index);
                    if self.flushed_index != self.index {
                        let j = choose|j: int|
                            0 <= j < self.replace_states.len() && (#[trigger] self.replace_states@[j]).candidates@.len() > 0
                                && flush_index == self.replace_states@[j].candidates@[0];
                        assert(self.candidates(j) == self.replace_states@[j].candidates@);
                    }
                    assert(self.watermark() == self.position() || exists|j: int|
                        0 <= j < self.patterns().len() && (#[trigger] self.candidates(j)).len() > 0
                            && self.watermark() == self.candidates(j)[0]);
                    if self.buffer_in@.len() > 0 {
                        let j = choose|j: int|
                            0 <= j < self.replace_states.len() && (#[trigger] self.replace_states@[j]).candidates@.len() > 0
                                && self.replace_states@[j].candidates@[0] == flush_index;
                        assert(prefix_at(input, pats[j].0, flush_index as int, self.replace_states@[j].candidates@[0] as int, i + 1, pats[j].0.len() as int));
                    }
                }
            },
            Some(k) => {
                proof {
                    lemma_first_hit_some(input, pats, f, i as int, 0);
                    assert(pats[k as int].0 == self.replace_states@[k as int].search_for@);
                    assert(pats[k as int].1 == self.replace_states@[k as int].replace_with@);
                }
                // the pending tokens before the match are kept, the match
                // itself gives way to the replacement
                let plen = self.replace_states[k].search_for.len();
                let start = self.index - plen;
                append_range(&mut self.buffer_out, self.buffer_in.as_slice(), 0, start - self.flushed_index);
                let rw = self.replace_states[k].replace_with;
                append_range(&mut self.buffer_out, rw, 0, rw.len());
                self.clear_candidates();
                self.buffer_in = Vec::new();
                self.flushed_index = self.index;
                proof {
                    assert(self.buffer_in@ =~= input.subrange(i + 1, i + 1));
                    assert(input.subrange(f, i + 1).subrange(0, start - f) =~= input.subrange(f, start as int));
                    assert(rw@.subrange(0, rw@.len() as int) =~= pats[k as int].1);
                    assert(self.buffer_out@ == bo + input.subrange(f, start as int) + pats[k as int].1);
                    assert(self.seen@ == input);
                    assert(first_hit(self.seen@, pats, f, i as int, 0) == Some(k as int));
                    assert(self.buffer_out@ == bo + self.seen@.subrange(f, self.index - pats[k as int].0.len()) + pats[k as int].1);
                    assert(forall|j: int| 0 <= j < self.patterns().len() ==> (#[trigger] self.candidates(j)).len() == 0);
                    assert forall|inp: Seq<T>| #[trigger] continues(input, false, inp) implies self.emitted@ + self.buffer_out@
                        + output_from(inp, pats, i + 1, i + 1) == replaced(inp, pats) by {
                        lemma_first_hit_transfer(input, inp, pats, f, i as int, 0);
                        assert(inp.subrange(f, start as int) =~= input.subrange(f, start as int));
                        assert(output_from(inp, pats, f, i as int) == inp.subrange(f, start as int) + pats[k as int].1
                            + output_from(inp, pats, i + 1, i + 1));
                        assert(self.emitted@ + self.buffer_out@ + output_from(inp, pats, i + 1, i + 1)
                            =~= em + bo + output_from(inp, pats, f, i as int));
                    }
                }
            },
        }
    }
    /// Drops every open candidate of every pattern.
    fn clear_candidates(&mut self)
        ensures
            final(self).seen == old(self).seen,
            final(self).ended == old(self).ended,
            final(self).buffer_out == old(self).buffer_out,
            final(self).buffer_in == old(self).buffer_in,
            final(self).index == old(self).index,
            final(self).flushed_index == old(self).flushed_index,
            final(self).emitted == old(self).emitted,
            final(self).patterns() == old(self).patterns(),
            final(self).replace_states.len() == old(self).replace_states.len(),
            forall|q: int|
                0 <= q < final(self).replace_states.len() ==> (#[trigger] final(self).replace_states@[q]).candidates@.len()
                    == 0,
    {
        let n = self.replace_states.len();
        let mut m: usize = 0;
        while m < n
            invariant
                n == self.replace_states.len(),
                m <= n,
                self.patterns() == old(self).patterns(),
                self.seen == old(self).seen,
                self.ended == old(self).ended,
                self.buffer_out == old(self).buffer_out,
                self.buffer_in == old(self).buffer_in,
                self.index == old(self).index,
                self.flushed_index == old(self).flushed_index,
                self.emitted == old(self).emitted,
                forall|q: int| 0 <= q < m ==> (#[trigger] self.replace_states@[q]).candidates@.len() == 0,
            decreases n - m,
        {
            let st = ReplaceState {
                search_for: self.replace_states[m].search_for,
                replace_with: self.replace_states[m].replace_with,
                candidates: Vec::new(),
            };
            let ghost before = self.replace_states@;
            self.replace_states.set(m, st);
            proof {
                assert(patterns_of(self.replace_states@) =~= patterns_of(before));
            }
            m = m + 1;
        }
    }

    /// Marks the end of the source: the pending tokens can no longer be
    /// part of a match and become output verbatim.
    pub fn finish(&mut self)
        requires
            old(self).wf(),
            !old(self).ended(),
        ensures
            final(self).wf(),
            final(self).ended(),
            final(self).seen() == old(self).seen(),
            final(self).patterns() == old(self).patterns(),
            final(self).emitted() == old(self).emitted(),
            final(self).position() == old(self).position(),
            final(self).ready() == old(self).ready() + old(self).pending(),
            final(self).pending().len() == 0,
            final(self).watermark() == final(self).position(),
            forall|k: int| 0 <= k < final(self).patterns().len() ==> (#[trigger] final(self).candidates(k)).len() == 0,
            final(self).emitted() + final(self).ready() == replaced(final(self).seen(), final(self).patterns()),
    {
        let ghost seen = self.seen@;
        let ghost pats = self.patterns();
        let ghost f = self.flushed_index as int;
        let ghost bo = self.buffer_out@;
        proof {
            assert(seen.subrange(0, seen.len() as int) =~= seen);
            assert(continues(seen, false, seen));
        }
        append_range(&mut self.buffer_out, self.buffer_in.as_slice(), 0, self.buffer_in.len());
        self.clear_candidates();
        self.buffer_in = Vec::new();
        self.flushed_index = self.index;
        self.ended = true;
        proof {
            let n = seen.len() as int;
            assert(self.buffer_in@ =~= seen.subrange(n, n));
            assert(self.buffer_out@ =~= bo + seen.subrange(f, n));
            assert(output_from(seen, pats, n, n) =~= Seq::<T>::empty());
            assert(self.emitted@ + self.buffer_out@ + output_from(seen, pats, n, n) =~= self.emitted@ + bo
                + output_from(seen, pats, f, n));
            assert(self.emitted@ + self.buffer_out@ =~= self.emitted@ + self.buffer_out@ + output_from(seen, pats, n, n));
            assert forall|inp: Seq<T>| #[trigger] continues(seen, true, inp) implies self.emitted@ + self.buffer_out@
                + output_from(inp, pats, n, n) == replaced(inp, pats) by {
                assert(inp =~= seen);
            }
        }
    }

    /// Hands out the next decided output token, or `None` where none is
    /// ready yet. Consumes no input.
    pub fn next(&mut self) -> (r: Option<T>)
        requires
            old(self).wf(),
        ensures
            final(self).wf(),
            final(self).seen() == old(self).seen(),
            final(self).patterns() == old(self).patterns(),
            final(self).ended() == old(self).ended(),
            final(self).position() == old(self).position(),
            final(self).watermark() == old(self).watermark(),
            final(self).pending() == old(self).pending(),
            forall|k: int| 0 <= k < final(self).patterns().len() ==> #[trigger] final(self).candidates(k) == old(self).candidates(k),
            old(self).ready().len() > 0 ==> r == Some(old(self).ready()[0]) && final(self).ready() == old(self).ready().drop_first()
                && final(self).emitted() == old(self).emitted().push(old(self).ready()[0]),
            old(self).ready().len() == 0 ==> r is None && final(self).ready() == old(self).ready() && final(self).emitted()
                == old(self).emitted(),
    {
        let ghost bo = self.buffer_out@;
        let ghost em = self.emitted@;
        let r = self.buffer_out.pop_front();
        if let Some(x) = r {
            self.emitted = Ghost(self.emitted@.push(x));
            proof {
                assert(self.emitted@ + self.buffer_out@ =~= em + bo);
            }
        }
        r
    }

    /// What has been handed out, followed by what is ready, is the start
    /// of the output for every way the source may go on; once the source
    /// has ended, it is the whole output.
    pub proof fn lemma_ready_is_prefix(&self, input: Seq<T>)
        requires
            self.wf(),
            continues(self.seen(), self.ended(), input),
        ensures
            (self.emitted() + self.ready()).len() <= replaced(input, self.patterns()).len(),
            replaced(input, self.patterns()).subrange(0, (self.emitted() + self.ready()).len() as int)
                == self.emitted() + self.ready(),
            self.ended() ==> self.emitted() + self.ready() == replaced(self.seen(), self.patterns()),
    {
        let done = self.emitted@ + self.buffer_out@;
        let rest = output_from(input, self.patterns(), self.flushed_index as int, self.index as int);
        assert((done + rest).subrange(0, done.len() as int) =~= done);
        assert(self.emitted@ + self.buffer_out@ + rest =~= done + rest);
        if self.ended {
            assert(input =~= self.seen@);
            assert(output_from(input, self.patterns(), self.index as int, self.index as int) =~= Seq::<T>::empty());
            assert(done + rest =~= done);
        }
    }

    /// Feeds all of `source` through the run, then ends it, collecting the
    /// output as it becomes ready.
    fn run(self, source: &Vec<T>) -> (r: Vec<T>)
        requires
            self.wf(),
            !self.ended(),
            self.seen() == Seq::<T>::empty(),
            self.emitted() == Seq::<T>::empty(),
            self.ready().len() == 0,
        ensures
            r@ == replaced(source@, self.patterns()),
    {
        let mut me = self;
        let ghost pats = self.patterns();
        let mut out: Vec<T> = Vec::new();
        let mut j: usize = 0;
        while j < source.len()
            invariant
                me.wf(),
                !me.ended(),
                me.patterns() == pats,
                j <= source.len(),
                me.seen() == source@.subrange(0, j as int),
                me.position() == j,
                out@ == me.emitted(),
                me.ready().len() == 0,
            decreases source.len() - j,
        {
            me.push(source[j]);
            assert(me.seen() =~= source@.subrange(0, j + 1));
            while me.buffer_out.len() > 0
                invariant
                    me.wf(),
                    !me.ended(),
                    me.patterns() == pats,
                    me.seen() == source@.subrange(0, j + 1),
                    me.position() == j + 1,
                    out@ == me.emitted(),
                decreases me.ready().len(),
            {
                if let Some(x) = me.next() {
                    out.push(x);
                }
            }
            j = j + 1;
        }
        me.finish();
        proof {
            assert(source@.subrange(0, j as int) =~= source@);
        }
        while me.buffer_out.len() > 0
            invariant
                me.wf(),
                me.ended(),
                me.patterns() == pats,
                me.seen() == source@,
                out@ + me.ready() == replaced(source@, pats),
                out@ == me.emitted(),
            decreases me.ready().len(),
        {
            let ghost before = me.ready();
            if let Some(x) = me.next() {
                out.push(x);
                assert(out@ + me.ready() =~= me.emitted() + me.ready());
            }
        }
        proof {
            assert(out@ + me.ready() =~= out@);
        }
        out
    }
}

/// Runs find-and-replace over a whole sequence of tokens.
pub trait ReplaceIter<'a, T: Copy + PartialEq>: Sized {
    /// The tokens of the sequence, in order.
    spec fn source(&self) -> Seq<T>;

    /// The output with the one pattern `search_for`, replaced by `replace_with`.
    fn replace(self, search_for: &'a [T], replace_with: &'a [T]) -> (r: Vec<T>)
        requires
            obeys_concrete_eq::<T>(),
            search_for@.len() > 0,
        ensures
            r@ == replaced(self.source(), seq![(search_for@, replace_with@)]),
    ;

    /// The output with several patterns; where two complete at the same
    /// position, the one listed first wins.
    fn replace_all(self, replacements: Vec<Replacement<'a, T>>) -> (r: Vec<T>)
        requires
            obeys_concrete_eq::<T>(),
            forall|k: int| 0 <= k < replacements.len() ==> (#[trigger] replacements@[k])@.0.len() > 0,
        ensures
            r@ == replaced(self.source(), replacements@.map_values(|x: Replacement<'a, T>| x@)),
    ;
}

impl<'a, T: Copy + PartialEq> ReplaceIter<'a, T> for Vec<T> {
    open spec fn source(&self) -> Seq<T> {
        self@
    }

    fn replace(self, search_for: &'a [T], replace_with: &'a [T]) -> (r: Vec<T>) {
        let mut reps: Vec<Replacement<'a, T>> = Vec::with_capacity(1);
        reps.push(Replacement::new(search_for, replace_with));
        proof {
            assert(reps@.map_values(|x: Replacement<'a, T>| x@) =~= seq![(search_for@, replace_with@)]);
        }
        Replace::new(reps).run(&self)
    }

    fn replace_all(self, replacements: Vec<Replacement<'a, T>>) -> (r: Vec<T>) {
        Replace::new(replacements).run(&self)
    }
}

} // verus!
