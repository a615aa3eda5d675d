//! Pieces that were joined by a separator are found again by splitting.
use vstd::prelude::*;

use crate::search::{
    find, lemma_find_from, lemma_find_is, lemma_find_none, occurs_at, split, split_once,
};
use crate::text::{trim_by, trim_end, trim_start};

verus! {

/// A separator of one symbol, or of two different ones: no occurrence of it overlaps another.
pub open spec fn is_separator<T>(sep: Seq<T>) -> bool {
    sep.len() == 1 || (sep.len() == 2 && sep[0] != sep[1])
}

/// The pieces with the separator between each two of them.
pub open spec fn joined_by<T>(pieces: Seq<Seq<T>>, sep: Seq<T>) -> Seq<T>
    decreases pieces.len(),
{
    if pieces.len() == 0 {
        seq![]
    } else if pieces.len() == 1 {
        pieces[0]
    } else {
        pieces[0] + sep + joined_by(pieces.skip(1), sep)
    }
}

/// Joining one more piece puts it at the end.
pub proof fn lemma_joined_push<T>(pieces: Seq<Seq<T>>, sep: Seq<T>, last: Seq<T>)
    requires
        pieces.len() > 0,
    ensures
        joined_by(pieces.push(last), sep) == joined_by(pieces, sep) + sep + last,
    decreases pieces.len(),
{
    let all = pieces.push(last);
    if pieces.len() == 1 {
        assert(all.skip(1) =~= seq![last]);
        assert(joined_by(seq![last], sep) == last);
    } else {
        lemma_joined_push(pieces.skip(1), sep, last);
        assert(all.skip(1) =~= pieces.skip(1).push(last));
        assert(joined_by(all, sep) =~= joined_by(pieces, sep) + sep + last);
    }
}

/// What stands in a part of a sequence stands in the sequence.
pub proof fn lemma_occurs_in_part<T>(s: Seq<T>, pat: Seq<T>, lo: int, hi: int, j: int)
    requires
        0 <= lo <= hi <= s.len(),
        lo <= j,
        j + pat.len() <= hi,
    ensures
        occurs_at(s, pat, j) == occurs_at(s.subrange(lo, hi), pat, j - lo),
{
    assert(s.subrange(j, j + pat.len()) =~= s.subrange(lo, hi).subrange(
        j - lo,
        j - lo + pat.len(),
    ));
}

/// The first separator after a piece without one stands at the end of the piece.
pub proof fn lemma_find_after_piece<T>(piece: Seq<T>, sep: Seq<T>, rest: Seq<T>)
    requires
        is_separator(sep),
        find(piece, sep) is None,
    ensures
        find(piece + sep + rest, sep) == Some(piece.len() as int),
{
    let s = piece + sep + rest;
    let n = piece.len() as int;
    lemma_find_from(piece, sep, 0);
    assert(s.subrange(n, n + sep.len()) =~= sep);
    assert forall|j: int| 0 <= j < n implies !occurs_at(s, sep, j) by {
        if j + sep.len() <= n {
            lemma_occurs_in_part(s, sep, 0, n, j);
            assert(s.subrange(0, n) =~= piece);
        } else if occurs_at(s, sep, j) {
            let there = s.subrange(j, j + sep.len());
            assert(there[1] == s[n]);
            assert(s[n] == sep[0]);
        }
    }
    lemma_find_is(s, sep, 0, n);
}

/// Splitting takes off the first piece.
pub proof fn lemma_split_first<T>(piece: Seq<T>, sep: Seq<T>, rest: Seq<T>)
    requires
        is_separator(sep),
        find(piece, sep) is None,
    ensures
        split(piece + sep + rest, sep) == seq![piece] + split(rest, sep),
        split_once(piece + sep + rest, sep) == Some((piece, rest)),
{
    let s = piece + sep + rest;
    lemma_find_after_piece(piece, sep, rest);
    assert(s.subrange(0, piece.len() as int) =~= piece);
    assert(s.skip(piece.len() as int + sep.len()) =~= rest);
}

/// Pieces without the separator are what splitting gives of the joined text.
pub proof fn lemma_split_joined<T>(pieces: Seq<Seq<T>>, sep: Seq<T>)
    requires
        is_separator(sep),
        pieces.len() > 0,
        forall|i: int| 0 <= i < pieces.len() ==> find(#[trigger] pieces[i], sep) is None,
    ensures
        split(joined_by(pieces, sep), sep) == pieces,
    decreases pieces.len(),
{
    if pieces.len() == 1 {
        assert(split(pieces[0], sep) =~= pieces);
    } else {
        let rest = pieces.skip(1);
        assert forall|i: int| 0 <= i < rest.len() implies find(#[trigger] rest[i], sep) is None by {
            assert(rest[i] == pieces[i + 1]);
        }
        lemma_split_joined(rest, sep);
        lemma_split_first(pieces[0], sep, joined_by(rest, sep));
        assert(seq![pieces[0]] + rest =~= pieces);
    }
}

/// What stands before the first separator has none.
pub proof fn lemma_before_first<T>(s: Seq<T>, sep: Seq<T>)
    requires
        sep.len() > 0,
        find(s, sep) is Some,
    ensures
        ({
            let i = find(s, sep)->0;
            &&& 0 <= i <= s.len() - sep.len()
            &&& find(s.subrange(0, i), sep) is None
            &&& s == s.subrange(0, i) + sep + s.skip(i + sep.len())
        }),
{
    let i = find(s, sep)->0;
    lemma_find_from(s, sep, 0);
    assert forall|j: int| 0 <= j implies !occurs_at(s.subrange(0, i), sep, j) by {
        if j + sep.len() <= i {
            lemma_occurs_in_part(s, sep, 0, i, j);
        }
    }
    lemma_find_none(s.subrange(0, i), sep, 0);
    assert(s =~= s.subrange(0, i) + s.subrange(i, i + sep.len()) + s.skip(i + sep.len()));
}

/// Splitting two texts with a separator between them gives the pieces of both.
pub proof fn lemma_split_append<T>(s: Seq<T>, sep: Seq<T>, rest: Seq<T>)
    requires
        is_separator(sep),
    ensures
        split(s + sep + rest, sep) == split(s, sep) + split(rest, sep),
    decreases s.len(),
{
    if find(s, sep) is None {
        lemma_split_first(s, sep, rest);
    } else {
        let i = find(s, sep)->0;
        let first = s.subrange(0, i);
        let tail = s.skip(i + sep.len());
        lemma_before_first(s, sep);
        lemma_split_append(tail, sep, rest);
        lemma_split_first(first, sep, tail + sep + rest);
        assert(s + sep + rest =~= first + sep + (tail + sep + rest));
        assert(seq![first] + (split(tail, sep) + split(rest, sep)) =~= split(s, sep) + split(
            rest,
            sep,
        ));
    }
}

/// A piece that splitting gives stands in the text.
pub proof fn lemma_piece_stands<T>(s: Seq<T>, sep: Seq<T>, i: int) -> (j: int)
    requires
        sep.len() > 0,
        0 <= i < split(s, sep).len(),
    ensures
        occurs_at(s, split(s, sep)[i], j),
    decreases s.len(),
{
    if find(s, sep) is None {
        assert(s.subrange(0, s.len() as int) =~= s);
        0
    } else {
        let at = find(s, sep)->0;
        lemma_before_first(s, sep);
        if i == 0 {
            0
        } else {
            let rest = s.skip(at + sep.len());
            let piece = split(rest, sep)[i - 1];
            let k = lemma_piece_stands(rest, sep, i - 1);
            let j = at + sep.len() + k;
            assert(s.subrange(j, j + piece.len()) =~= rest.subrange(k, k + piece.len()));
            j
        }
    }
}

/// Trimming at the start leaves the end of a text, and no character of its kind before it.
pub proof fn lemma_trim_start(s: Seq<char>, p: spec_fn(char) -> bool) -> (n: int)
    ensures
        0 <= n <= s.len(),
        trim_start(s, p) == s.skip(n),
        trim_start(s, p).len() > 0 ==> !p(trim_start(s, p)[0]),
    decreases s.len(),
{
    if s.len() > 0 && p(s[0]) {
        let n = lemma_trim_start(s.skip(1), p);
        assert(s.skip(1).skip(n) =~= s.skip(n + 1));
        n + 1
    } else {
        assert(s.skip(0) =~= s);
        0
    }
}

/// A separator of one symbol is not found where the symbol does not occur.
pub proof fn lemma_symbol_not_found<T>(s: Seq<T>, sep: Seq<T>)
    requires
        sep.len() > 0,
        !s.contains(sep[0]),
    ensures
        find(s, sep) is None,
{
    assert forall|j: int| 0 <= j implies !occurs_at(s, sep, j) by {
        if occurs_at(s, sep, j) {
            assert(s.subrange(j, j + sep.len())[0] == s[j]);
        }
    }
    lemma_find_none(s, sep, 0);
}

/// Trimming keeps a text that neither begins nor ends with white space.
pub proof fn lemma_trim_keeps(s: Seq<char>, p: spec_fn(char) -> bool)
    requires
        s.len() > 0 ==> !p(s[0]) && !p(s.last()),
    ensures
        trim_by(s, p) == s,
{
}

/// Trimming drops a character of its kind at the start.
pub proof fn lemma_trim_drops_first(c: char, s: Seq<char>, p: spec_fn(char) -> bool)
    requires
        p(c),
    ensures
        trim_start(seq![c] + s, p) == trim_start(s, p),
{
    assert((seq![c] + s).skip(1) =~= s);
}

/// Trimming drops a pair of characters of its kind around a text that has none at its ends.
pub proof fn lemma_trim_drops_pair(c: char, s: Seq<char>, p: spec_fn(char) -> bool)
    requires
        p(c),
        s.len() > 0,
        !p(s[0]),
        !p(s.last()),
    ensures
        trim_by(seq![c] + s + seq![c], p) == s,
{
    let all = seq![c] + s + seq![c];
    let open_end = s + seq![c];
    assert(all.skip(1) =~= open_end);
    assert(open_end[0] == s[0]);
    assert(trim_start(open_end, p) == open_end);
    assert(trim_start(all, p) == open_end);
    assert(open_end.drop_last() =~= s);
    assert(trim_end(s, p) == s);
    assert(trim_end(open_end, p) == s);
}

} // verus!
