//! Searching and splitting sequences of bytes and of characters.
//!
//! Each function is written once for both kinds of symbol. The specification functions
//! work on mathematical sequences, the executable ones on slices.
use vstd::prelude::*;
use vstd::slice::slice_subrange;

verus! {

/// A symbol whose executable comparison is plain equality.
pub trait Symbol: Copy {
    /// Compares two symbols.
    fn same(&self, other: &Self) -> (b: bool)
        ensures
            b == (*self == *other),
    ;
}

impl Symbol for u8 {
    fn same(&self, other: &Self) -> (b: bool) {
        *self == *other
    }
}

impl Symbol for char {
    fn same(&self, other: &Self) -> (b: bool) {
        *self == *other
    }
}

/// The pattern `pat` stands in `s` at position `i`.
pub open spec fn occurs_at<T>(s: Seq<T>, pat: Seq<T>, i: int) -> bool {
    0 <= i && i + pat.len() <= s.len() && s.subrange(i, i + pat.len()) == pat
}

/// The sequence `s` begins with `pat`.
pub open spec fn begins_with<T>(s: Seq<T>, pat: Seq<T>) -> bool {
    occurs_at(s, pat, 0)
}

/// The first position, at `from` or later, at which `pat` stands in `s`.
pub open spec fn find_from<T>(s: Seq<T>, pat: Seq<T>, from: int) -> Option<int>
    decreases s.len() - from + 1,
{
    if from < 0 || from + pat.len() > s.len() {
        None
    } else if occurs_at(s, pat, from) {
        Some(from)
    } else {
        find_from(s, pat, from + 1)
    }
}

/// The first position at which `pat` stands in `s`.
pub open spec fn find<T>(s: Seq<T>, pat: Seq<T>) -> Option<int> {
    find_from(s, pat, 0)
}

/// The pieces of `s` between the occurrences of `sep`, taken from the left without overlap.
pub open spec fn split<T>(s: Seq<T>, sep: Seq<T>) -> Seq<Seq<T>>
    decreases s.len(),
    when sep.len() > 0
{
    match find(s, sep) {
        None => seq![s],
        Some(i) => {
            proof {
                lemma_find_from(s, sep, 0);
            }
            seq![s.subrange(0, i)] + split(s.skip(i + sep.len()), sep)
        },
    }
}

/// What stands before and after the first `sep` of `s`.
pub open spec fn split_once<T>(s: Seq<T>, sep: Seq<T>) -> Option<(Seq<T>, Seq<T>)> {
    match find(s, sep) {
        None => None,
        Some(i) => Some((s.subrange(0, i), s.skip(i + sep.len()))),
    }
}

/// The sequences that a list of slices stands for.
pub open spec fn views<T>(pieces: Seq<&[T]>) -> Seq<Seq<T>> {
    Seq::new(pieces.len(), |k: int| pieces[k]@)
}

/// A position found lies inside the sequence and is the first one from `from` on;
/// where none is found, there is none.
pub proof fn lemma_find_from<T>(s: Seq<T>, pat: Seq<T>, from: int)
    requires
        0 <= from,
    ensures
        match find_from(s, pat, from) {
            Some(i) => from <= i && occurs_at(s, pat, i) && (forall|j: int|
                from <= j < i ==> !occurs_at(s, pat, j)),
            None => forall|j: int| from <= j ==> !occurs_at(s, pat, j),
        },
    decreases s.len() - from + 1,
{
    if from + pat.len() > s.len() {
    } else if occurs_at(s, pat, from) {
    } else {
        lemma_find_from(s, pat, from + 1);
    }
}

/// A position that has the pattern, with no earlier one from `from` on, is the one found.
pub proof fn lemma_find_is<T>(s: Seq<T>, pat: Seq<T>, from: int, i: int)
    requires
        0 <= from <= i,
        occurs_at(s, pat, i),
        forall|j: int| from <= j < i ==> !occurs_at(s, pat, j),
    ensures
        find_from(s, pat, from) == Some(i),
{
    lemma_find_from(s, pat, from);
}

/// Where the pattern stands nowhere from `from` on, none is found.
pub proof fn lemma_find_none<T>(s: Seq<T>, pat: Seq<T>, from: int)
    requires
        0 <= from,
        forall|j: int| from <= j ==> !occurs_at(s, pat, j),
    ensures
        find_from(s, pat, from) is None,
{
    lemma_find_from(s, pat, from);
}

/// Tests whether `pat` stands in `s` at position `i`.
pub fn matches_at<T: Symbol>(s: &[T], pat: &[T], i: usize) -> (b: bool)
    ensures
        b == occurs_at(s@, pat@, i as int),
{
    if i > s.len() || pat.len() > s.len() - i {
        return false;
    }
    let mut k: usize = 0;
    while k < pat.len()
        invariant
            k <= pat.len(),
            i + pat.len() <= s.len(),
            forall|j: int| 0 <= j < k ==> s@[i + j] == pat@[j],
        decreases pat.len() - k,
    {
        if !s[i + k].same(&pat[k]) {
            assert(s@.subrange(i as int, i + pat@.len())[k as int] != pat@[k as int]);
            return false;
        }
        k += 1;
    }
    assert(s@.subrange(i as int, i + pat@.len()) =~= pat@);
    true
}

/// Tests whether `s` begins with `pat`.
pub fn starts_with<T: Symbol>(s: &[T], pat: &[T]) -> (b: bool)
    ensures
        b == begins_with(s@, pat@),
{
    matches_at(s, pat, 0)
}

/// Finds the first place of `pat` in `s` at `from` or later.
pub fn position_from<T: Symbol>(s: &[T], pat: &[T], from: usize) -> (r: Option<usize>)
    ensures
        match r {
            Some(i) => find_from(s@, pat@, from as int) == Some(i as int),
            None => find_from(s@, pat@, from as int) is None,
        },
{
    let mut i: usize = from;
    while i <= s.len() && pat.len() <= s.len() - i
        invariant
            from <= i,
            find_from(s@, pat@, from as int) == find_from(s@, pat@, i as int),
        decreases s.len() + 1 - i,
    {
        if matches_at(s, pat, i) {
            return Some(i);
        }
        if i == s.len() {
            assert(s@.subrange(i as int, i + pat@.len()) =~= pat@);
            return None;
        }
        i += 1;
    }
    None
}

/// Finds the first place of `pat` in `s`.
pub fn position<T: Symbol>(s: &[T], pat: &[T]) -> (r: Option<usize>)
    ensures
        match r {
            Some(i) => find(s@, pat@) == Some(i as int) && i + pat@.len() <= s@.len(),
            None => find(s@, pat@) is None,
        },
{
    proof {
        lemma_find_from(s@, pat@, 0);
    }
    position_from(s, pat, 0)
}

/// Splits `s` at every `sep`.
pub fn split_all<'a, T: Symbol>(s: &'a [T], sep: &[T]) -> (r: Vec<&'a [T]>)
    requires
        sep@.len() > 0,
    ensures
        views(r@) == split(s@, sep@),
        r@.len() > 0,
{
    let mut out: Vec<&'a [T]> = Vec::new();
    let mut rest: &'a [T] = s;
    loop
        invariant
            sep@.len() > 0,
            split(s@, sep@) == views(out@) + split(rest@, sep@),
        decreases rest@.len(),
    {
        match position(rest, sep) {
            None => {
                let ghost before = views(out@);
                out.push(rest);
                assert(views(out@) =~= before.push(rest@));
                assert(split(s@, sep@) =~= views(out@));
                return out;
            },
            Some(i) => {
                let ghost before = views(out@);
                let total: usize = rest.len();
                let piece = slice_subrange(rest, 0, i);
                out.push(piece);
                let tail = slice_subrange(rest, i + sep.len(), total);
                assert(tail@ =~= rest@.skip(i + sep@.len()));
                assert(views(out@) =~= before.push(piece@));
                assert(views(out@) + split(tail@, sep@) =~= before + split(rest@, sep@));
                rest = tail;
            },
        }
    }
}

/// Cuts `s` at its first `sep`.
pub fn cut<'a, T: Symbol>(s: &'a [T], sep: &[T]) -> (r: Option<(&'a [T], &'a [T])>)
    ensures
        match r {
            Some((head, tail)) => split_once(s@, sep@) == Some((head@, tail@)),
            None => split_once(s@, sep@) is None,
        },
{
    match position(s, sep) {
        None => None,
        Some(i) => {
            let total: usize = s.len();
            let head = slice_subrange(s, 0, i);
            let tail = slice_subrange(s, i + sep.len(), total);
            assert(tail@ =~= s@.skip(i + sep@.len()));
            Some((head, tail))
        },
    }
}

} // verus!
