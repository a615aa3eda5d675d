//! File paths in the notation of Unix, as texts.
use vstd::prelude::*;
use vstd::slice::{slice_subrange, slice_to_vec};

use crate::search::{split, split_all, views};

verus! {

/// The path that leads from `base` along `rest`; an absolute `rest` stands alone.
pub open spec fn joined(base: Seq<char>, rest: Seq<char>) -> Seq<char> {
    if rest.len() > 0 && rest[0] == '/' {
        rest
    } else if base.len() == 0 || base.last() == '/' {
        base + rest
    } else {
        base + seq!['/'] + rest
    }
}

/// The last piece that names something: empty pieces and single dots do not.
pub open spec fn last_name(pieces: Seq<Seq<char>>) -> Option<Seq<char>>
    decreases pieces.len(),
{
    if pieces.len() == 0 {
        None
    } else if pieces.last().len() == 0 || pieces.last() == seq!['.'] {
        last_name(pieces.drop_last())
    } else {
        Some(pieces.last())
    }
}

/// The last name of a path, unless the path ends by going up.
pub open spec fn file_name(path: Seq<char>) -> Option<Seq<char>> {
    match last_name(split(path, seq!['/'])) {
        Some(name) => if name == seq!['.', '.'] {
            None
        } else {
            Some(name)
        },
        None => None,
    }
}

/// The position of the last dot.
pub open spec fn last_dot(name: Seq<char>) -> Option<int>
    decreases name.len(),
{
    if name.len() == 0 {
        None
    } else if name.last() == '.' {
        Some(name.len() - 1)
    } else {
        last_dot(name.drop_last())
    }
}

/// What follows the last dot of the file name, unless the name begins with that dot.
pub open spec fn extension(path: Seq<char>) -> Option<Seq<char>> {
    match file_name(path) {
        None => None,
        Some(name) => match last_dot(name) {
            None => None,
            Some(i) => if i == 0 {
                None
            } else {
                Some(name.skip(i + 1))
            },
        },
    }
}

/// How many directories down pieces of a path lead: a name leads one down, two dots lead one
/// up, and empty pieces and single dots lead nowhere.
pub open spec fn depth(pieces: Seq<Seq<char>>) -> int
    decreases pieces.len(),
{
    if pieces.len() == 0 {
        0
    } else if pieces.last() == seq!['.', '.'] {
        depth(pieces.drop_last()) - 1
    } else if pieces.last().len() == 0 || pieces.last() == seq!['.'] {
        depth(pieces.drop_last())
    } else {
        depth(pieces.drop_last()) + 1
    }
}

/// A relative path that stays below the directory that it is joined to: nowhere on its way
/// does it climb above that directory, and it does not end by going up.
pub open spec fn stays_below(rel: Seq<char>) -> bool {
    let pieces = split(rel, seq!['/']);
    &&& !(rel.len() > 0 && rel[0] == '/')
    &&& forall|n: int| 0 <= n <= pieces.len() ==> depth(#[trigger] pieces.take(n)) >= 0
    &&& pieces.last() != seq!['.', '.']
}

/// How much of a path stands before its names: the slash of an absolute path, or a dot that
/// the path begins with as its first piece.
pub open spec fn lead_len(path: Seq<char>) -> int {
    if path.len() > 0 && (path[0] == '/' || (path[0] == '.' && (path.len() == 1 || path[1]
        == '/'))) {
        1
    } else {
        0
    }
}

/// Where the last piece of a path, with the slash before it, begins; not before `lead`.
pub open spec fn last_cut(path: Seq<char>, lead: int) -> int
    decreases path.len(),
{
    if path.len() <= lead || path.len() == 0 {
        lead
    } else if path.last() == '/' {
        path.len() - 1
    } else {
        last_cut(path.drop_last(), lead)
    }
}

/// The last piece of a path, without the slash before it.
pub open spec fn last_piece(path: Seq<char>, lead: int) -> Seq<char> {
    let cut = last_cut(path, lead);
    if path[cut] == '/' {
        path.skip(cut + 1)
    } else {
        path.skip(cut)
    }
}

/// The path up to its last name: empty pieces and single dots at the end are dropped.
pub open spec fn up_to_name(path: Seq<char>, lead: int) -> Seq<char>
    decreases path.len(),
{
    if lead < 0 || path.len() <= lead {
        path
    } else {
        proof {
            lemma_last_cut(path, lead);
        }
        if last_piece(path, lead).len() == 0 || last_piece(path, lead) == seq!['.'] {
            up_to_name(path.take(last_cut(path, lead)), lead)
        } else {
            path
        }
    }
}

/// The directory that holds what a path leads to. The root and the empty path have none.
pub open spec fn parent(path: Seq<char>) -> Option<Seq<char>> {
    let lead = lead_len(path);
    let name = up_to_name(path, lead);
    if name.len() > lead {
        Some(up_to_name(name.take(last_cut(name, lead)), lead))
    } else if lead == 1 && path[0] == '.' {
        Some(seq![])
    } else {
        None
    }
}

/// The last piece of a path lies inside it.
pub proof fn lemma_last_cut(path: Seq<char>, lead: int)
    requires
        0 <= lead < path.len(),
    ensures
        lead <= last_cut(path, lead) < path.len(),
    decreases path.len(),
{
    reveal_with_fuel(last_cut, 2);
    if path.last() != '/' && path.len() - 1 > lead {
        lemma_last_cut(path.drop_last(), lead);
    }
}

/// Tests whether a relative path stays below the directory that it is joined to.
pub fn is_below(rel: &[char]) -> (b: bool)
    ensures
        b == stays_below(rel@),
{
    if rel.len() > 0 && rel[0] == '/' {
        return false;
    }
    let slash: Vec<char> = vec!['/'];
    assert(slash@ =~= seq!['/']);
    let pieces = split_all(rel, slash.as_slice());
    let ghost all = views(pieces@);
    let mut down: usize = 0;
    let mut goes_up: bool = false;
    let mut i: usize = 0;
    assert(all.take(0) =~= seq![]);
    while i < pieces.len()
        invariant
            i <= pieces@.len(),
            all == views(pieces@),
            all == split(rel@, seq!['/']),
            down <= i,
            down == depth(all.take(i as int)),
            forall|n: int| 0 <= n <= i ==> depth(#[trigger] all.take(n)) >= 0,
            i > 0 ==> goes_up == (all[i - 1] == seq!['.', '.']),
        decreases pieces@.len() - i,
    {
        let piece = pieces[i];
        assert(all[i as int] == piece@);
        assert(all.take(i + 1).drop_last() =~= all.take(i as int));
        assert(all.take(i + 1).last() == piece@);
        assert(piece@.len() == 1 ==> piece@ =~= seq![piece@[0]]);
        assert(piece@.len() == 2 ==> piece@ =~= seq![piece@[0], piece@[1]]);
        goes_up = piece.len() == 2 && piece[0] == '.' && piece[1] == '.';
        if goes_up {
            if down == 0 {
                assert(depth(all.take(i + 1)) < 0);
                return false;
            }
            down -= 1;
        } else if !(piece.len() == 0 || (piece.len() == 1 && piece[0] == '.')) {
            down += 1;
        }
        i += 1;
    }
    !goes_up
}

/// Where the last piece of a path begins.
fn find_last_cut(path: &[char], lead: usize) -> (r: usize)
    requires
        lead < path@.len(),
    ensures
        r == last_cut(path@, lead as int),
        lead <= r < path@.len(),
{
    let mut n: usize = path.len();
    assert(path@.take(n as int) =~= path@);
    while n > lead && path[n - 1] != '/'
        invariant
            lead <= n <= path@.len(),
            last_cut(path@, lead as int) == last_cut(path@.take(n as int), lead as int),
        decreases n,
    {
        assert(path@.take(n as int).drop_last() =~= path@.take(n - 1));
        n -= 1;
    }
    proof {
        lemma_last_cut(path@, lead as int);
        assert(path@.take(n as int).len() == n);
    }
    if n > lead {
        n - 1
    } else {
        lead
    }
}

/// Drops empty pieces and single dots at the end of a path.
fn cut_to_name<'a>(path: &'a [char], lead: usize) -> (r: &'a [char])
    ensures
        r@ == up_to_name(path@, lead as int),
{
    let mut n: usize = path.len();
    assert(path@.take(n as int) =~= path@);
    while n > lead
        invariant
            n <= path@.len(),
            up_to_name(path@, lead as int) == up_to_name(path@.take(n as int), lead as int),
        decreases n,
    {
        let ghost here = path@.take(n as int);
        let rest = slice_subrange(path, 0, n);
        assert(rest@ =~= here);
        let cut: usize = find_last_cut(rest, lead);
        let start: usize = if rest[cut] == '/' {
            cut + 1
        } else {
            cut
        };
        let piece = slice_subrange(rest, start, n);
        assert(piece@ =~= last_piece(here, lead as int));
        assert(piece@.len() == 1 ==> piece@ =~= seq![piece@[0]]);
        if !(piece.len() == 0 || (piece.len() == 1 && piece[0] == '.')) {
            return rest;
        }
        assert(here.take(cut as int) =~= path@.take(cut as int));
        n = cut;
    }
    let r = slice_subrange(path, 0, n);
    assert(r@ =~= path@.take(n as int));
    r
}

/// The directory that holds what a path leads to, as `Path::parent` gives it.
pub fn parent_of(path: &[char]) -> (r: Option<Vec<char>>)
    ensures
        match r {
            Some(dir) => parent(path@) == Some(dir@),
            None => parent(path@) is None,
        },
{
    let lead: usize = if path.len() > 0 && (path[0] == '/' || (path[0] == '.' && (path.len() == 1
        || path[1] == '/'))) {
        1
    } else {
        0
    };
    let name = cut_to_name(path, lead);
    if name.len() > lead {
        let cut: usize = find_last_cut(name, lead);
        let before = slice_subrange(name, 0, cut);
        assert(before@ =~= name@.take(cut as int));
        Some(slice_to_vec(cut_to_name(before, lead)))
    } else if lead == 1 && path[0] == '.' {
        let none: Vec<char> = Vec::new();
        assert(none@ =~= seq![]);
        Some(none)
    } else {
        None
    }
}

/// Joins two paths as `Path::join` does.
pub fn join(base: &[char], rest: &[char]) -> (r: Vec<char>)
    ensures
        r@ == joined(base@, rest@),
{
    let mut out: Vec<char> = Vec::new();
    if rest.len() > 0 && rest[0] == '/' {
        out.extend_from_slice(rest);
        assert(out@ =~= rest@);
        return out;
    }
    out.extend_from_slice(base);
    assert(out@ =~= base@);
    if base.len() > 0 && base[base.len() - 1] != '/' {
        out.push('/');
        assert(out@ =~= base@ + seq!['/']);
    }
    out.extend_from_slice(rest);
    assert(out@ =~= joined(base@, rest@));
    out
}

/// The extension of the file that a path leads to, as `Path::extension` gives it; the
/// empty text where there is none.
pub fn extension_or_empty(path: &[char]) -> (r: Vec<char>)
    ensures
        r@ == (match extension(path@) {
            Some(e) => e,
            None => seq![],
        }),
{
    let slash: Vec<char> = vec!['/'];
    assert(slash@ =~= seq!['/']);
    let pieces = split_all(path, slash.as_slice());
    let mut n: usize = pieces.len();
    let ghost all = views(pieces@);
    assert(all.take(n as int) =~= all);
    while n > 0 && (pieces[n - 1].len() == 0 || (pieces[n - 1].len() == 1 && pieces[n - 1][0]
        == '.'))
        invariant
            n <= pieces@.len(),
            all == views(pieces@),
            last_name(all) == last_name(all.take(n as int)),
        decreases n,
    {
        assert(all.take(n as int).drop_last() =~= all.take(n - 1));
        assert(all.take(n as int).last() == pieces@[n - 1]@);
        assert(pieces@[n - 1]@.len() == 1 ==> pieces@[n - 1]@ =~= seq![pieces@[n - 1]@[0]]);
        n -= 1;
    }
    let mut out: Vec<char> = Vec::new();
    if n == 0 {
        assert(out@ =~= seq![]);
        return out;
    }
    let name = pieces[n - 1];
    assert(all.take(n as int).last() == name@);
    if name.len() == 2 && name[0] == '.' && name[1] == '.' {
        assert(name@ =~= seq!['.', '.']);
        assert(out@ =~= seq![]);
        return out;
    }
    let mut i: usize = name.len();
    assert(name@.take(i as int) =~= name@);
    while i > 0 && name[i - 1] != '.'
        invariant
            i <= name@.len(),
            last_dot(name@) == last_dot(name@.take(i as int)),
        decreases i,
    {
        assert(name@.take(i as int).drop_last() =~= name@.take(i - 1));
        i -= 1;
    }
    if i > 1 {
        out.extend_from_slice(slice_subrange(name, i, name.len()));
        assert(out@ =~= name@.skip(i as int));
    } else {
        assert(out@ =~= seq![]);
    }
    out
}

} // verus!
