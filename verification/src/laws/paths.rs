//! What joining, extensions, parents and going up mean for paths written piece by piece.
use vstd::prelude::*;

use crate::laws::splitting::{
    lemma_before_first, lemma_split_append, lemma_split_first, lemma_symbol_not_found,
};
use crate::laws::text::law_pieces_join_again;
use crate::path::{
    depth, extension, joined, last_cut, last_dot, last_piece, lead_len, lemma_last_cut, parent,
    stays_below, up_to_name,
};
use crate::search::{find, lemma_find_from, occurs_at, split};

verus! {

/// A path leads on from a directory: one slash stands between them, and an absolute path
/// stands alone.
pub proof fn law_paths_are_joined_by_a_slash(base: Seq<char>, rel: Seq<char>)
    ensures
        rel.len() > 0 && rel[0] == '/' ==> joined(base, rel) == rel,
        !(rel.len() > 0 && rel[0] == '/') ==> joined(base + "/"@, rel) == base + "/"@ + rel,
        !(rel.len() > 0 && rel[0] == '/') && base.len() > 0 && base.last() != '/' ==> joined(
            base,
            rel,
        ) == base + "/"@ + rel,
        joined(Seq::<char>::empty(), rel) == rel,
{
    reveal_strlit("/");
    assert((base + "/"@).last() == '/');
    assert("/"@ =~= seq!['/']);
    assert(Seq::<char>::empty() + rel =~= rel);
}

/// A piece of a path: a text without slashes.
pub open spec fn is_piece(s: Seq<char>) -> bool {
    !s.contains('/')
}

/// The pieces of a path that goes on with more of its last piece.
proof fn lemma_last_piece_goes_on(base: Seq<char>, more: Seq<char>)
    requires
        is_piece(more),
    ensures
        split(base + more, seq!['/']) == split(base, seq!['/']).drop_last().push(
            split(base, seq!['/']).last() + more,
        ),
        split(base, seq!['/']).len() > 0,
    decreases base.len(),
{
    let slash = seq!['/'];
    let whole = base + more;
    if find(base, slash) is None {
        assert(!base.contains('/')) by {
            if base.contains('/') {
                let k = choose|k: int| 0 <= k < base.len() && base[k] == '/';
                lemma_find_from(base, slash, 0);
                assert(base.subrange(k, k + 1) =~= slash);
                assert(occurs_at(base, slash, k));
            }
        }
        assert(!whole.contains('/')) by {
            if whole.contains('/') {
                let k = choose|k: int| 0 <= k < whole.len() && whole[k] == '/';
                if k < base.len() {
                    assert(base[k] == '/');
                } else {
                    assert(more[k - base.len()] == '/');
                }
            }
        }
        lemma_symbol_not_found(whole, slash);
        assert(split(base, slash) =~= seq![base]);
        assert(split(whole, slash) =~= seq![whole]);
        assert(split(base, slash).drop_last() =~= seq![]);
        assert(split(whole, slash) =~= split(base, slash).drop_last().push(
            split(base, slash).last() + more,
        ));
    } else {
        let i = find(base, slash)->0;
        let first = base.subrange(0, i);
        let rest = base.skip(i + 1);
        lemma_before_first(base, slash);
        lemma_last_piece_goes_on(rest, more);
        lemma_split_first(first, slash, rest + more);
        assert(whole =~= first + slash + (rest + more));
        assert(split(base, slash) == seq![first] + split(rest, slash));
        assert(split(whole, slash) =~= split(base, slash).drop_last().push(
            split(base, slash).last() + more,
        ));
    }
}

/// The last piece of a path that does not end with a slash is not empty.
proof fn lemma_last_piece_not_empty(base: Seq<char>)
    requires
        base.len() > 0,
        base.last() != '/',
    ensures
        split(base, seq!['/']).len() > 0,
        split(base, seq!['/']).last().len() > 0,
        split(base, seq!['/']).last().last() == base.last(),
{
    let more = seq![base.last()];
    let before = base.drop_last();
    assert(base =~= before + more);
    assert(is_piece(more));
    lemma_last_piece_goes_on(before, more);
}

/// The position of the last dot of a name that ends with a dot and an extension.
proof fn lemma_last_dot(name: Seq<char>, ext: Seq<char>)
    requires
        !ext.contains('.'),
    ensures
        last_dot(name + seq!['.'] + ext) == Some(name.len() as int),
    decreases ext.len(),
{
    let whole = name + seq!['.'] + ext;
    if ext.len() == 0 {
        assert(whole.last() == '.');
    } else {
        assert(whole.last() == ext.last());
        assert(ext.contains(ext.last()));
        assert(whole.drop_last() =~= name + seq!['.'] + ext.drop_last());
        assert forall|c: char| ext.drop_last().contains(c) implies ext.contains(c) by {
            let k = choose|k: int| 0 <= k < ext.drop_last().len() && ext.drop_last()[k] == c;
            assert(ext[k] == c);
        }
        lemma_last_dot(name, ext.drop_last());
    }
}

/// A name without dots has no last dot.
proof fn lemma_no_dot(name: Seq<char>)
    requires
        !name.contains('.'),
    ensures
        last_dot(name) is None,
    decreases name.len(),
{
    if name.len() > 0 {
        assert(name.contains(name.last()));
        assert forall|c: char| name.drop_last().contains(c) implies name.contains(c) by {
            let k = choose|k: int| 0 <= k < name.drop_last().len() && name.drop_last()[k] == c;
            assert(name[k] == c);
        }
        lemma_no_dot(name.drop_last());
    }
}

/// What follows the last dot of a file's name is its extension, whatever directories the
/// path leads through and whatever the name is before that dot, unless it is empty.
pub proof fn law_extension_follows_the_last_dot(base: Seq<char>, ext: Seq<char>)
    requires
        base.len() > 0,
        base.last() != '/',
        ext.len() > 0,
        !ext.contains('.'),
        is_piece(ext),
    ensures
        extension(base + "."@ + ext) == Some(ext),
{
    reveal_strlit(".");
    let more = seq!['.'] + ext;
    let whole = base + "."@ + ext;
    let last = split(base, seq!['/']).last();
    assert("."@ =~= seq!['.']);
    assert(whole =~= base + more);
    if more.contains('/') {
        let k = choose|k: int| 0 <= k < more.len() && more[k] == '/';
        assert(ext[k - 1] == '/');
    }
    lemma_last_piece_not_empty(base);
    lemma_last_piece_goes_on(base, more);
    let name = last + more;
    let pieces = split(whole, seq!['/']);
    assert(pieces.last() == name);
    assert(name.len() >= 3);
    lemma_last_dot(last, ext);
    assert(name =~= last + seq!['.'] + ext);
    assert(name.skip(last.len() as int + 1) =~= ext);
}

/// A file's name without a dot, or with one at its start only, has no extension.
pub proof fn law_no_dot_no_extension(dir: Seq<char>, name: Seq<char>, hidden: bool)
    requires
        dir.len() == 0 || dir.last() == '/',
        name.len() > 0,
        !name.contains('.'),
        is_piece(name),
    ensures
        extension(
            dir + if hidden {
                "."@ + name
            } else {
                name
            },
        ) is None,
{
    reveal_strlit(".");
    assert("."@ =~= seq!['.']);
    let own = if hidden {
        "."@ + name
    } else {
        name
    };
    if own.contains('/') {
        let k = choose|k: int| 0 <= k < own.len() && own[k] == '/';
        assert(name[if hidden {
            k - 1
        } else {
            k
        }] == '/');
    }
    lemma_last_piece_goes_on(dir, own);
    lemma_ends_with_empty_piece(dir);
    let pieces = split(dir + own, seq!['/']);
    assert(split(dir, seq!['/']).last() + own =~= own);
    assert(pieces.last() == own);
    assert(own != seq!['.']) by {
        if own == seq!['.'] {
            assert(own.len() == 1);
            assert(name.contains(name[0]));
        }
    }
    assert(own != seq!['.', '.']) by {
        if own == seq!['.', '.'] {
            assert(own[1] == '.');
            assert(name.contains(own[1]));
        }
    }
    if hidden {
        lemma_last_dot(seq![], name);
        assert(own =~= Seq::<char>::empty() + seq!['.'] + name);
    } else {
        lemma_no_dot(name);
    }
}

/// The last piece of a path that is empty or ends with a slash is empty.
proof fn lemma_ends_with_empty_piece(dir: Seq<char>)
    requires
        dir.len() == 0 || dir.last() == '/',
    ensures
        split(dir, seq!['/']).len() > 0,
        split(dir, seq!['/']).last().len() == 0,
{
    let slash = seq!['/'];
    lemma_symbol_not_found(Seq::<char>::empty(), slash);
    assert(split(Seq::<char>::empty(), slash) =~= seq![Seq::<char>::empty()]);
    if dir.len() == 0 {
        assert(dir =~= seq![]);
    } else {
        let before = dir.drop_last();
        assert(dir =~= before + slash + Seq::<char>::empty());
        lemma_split_append(before, slash, Seq::<char>::empty());
    }
}

/// Where the last piece of a path begins that ends with a slash and a name.
proof fn lemma_last_cut_is(dir: Seq<char>, name: Seq<char>, lead: int)
    requires
        is_piece(name),
        0 <= lead <= dir.len(),
    ensures
        last_cut(dir + seq!['/'] + name, lead) == dir.len(),
    decreases name.len(),
{
    let path = dir + seq!['/'] + name;
    if name.len() == 0 {
        assert(path.last() == '/');
    } else {
        assert(path.last() == name.last());
        assert(name.contains(name.last()));
        assert(path.drop_last() =~= dir + seq!['/'] + name.drop_last());
        assert forall|c: char| name.drop_last().contains(c) implies name.contains(c) by {
            let k = choose|k: int| 0 <= k < name.drop_last().len() && name.drop_last()[k] == c;
            assert(name[k] == c);
        }
        lemma_last_cut_is(dir, name.drop_last(), lead);
    }
}

/// Where a path without slashes begins.
proof fn lemma_last_cut_of_name(name: Seq<char>)
    requires
        is_piece(name),
    ensures
        last_cut(name, 0) == 0,
    decreases name.len(),
{
    if name.len() > 0 {
        assert(name.contains(name.last()));
        assert forall|c: char| name.drop_last().contains(c) implies name.contains(c) by {
            let k = choose|k: int| 0 <= k < name.drop_last().len() && name.drop_last()[k] == c;
            assert(name[k] == c);
        }
        lemma_last_cut_of_name(name.drop_last());
    }
}

/// A path that ends with a character other than a slash or a dot is its own way to its name.
proof fn lemma_up_to_name_is(path: Seq<char>, lead: int)
    requires
        0 <= lead < path.len(),
        path.last() != '/',
        path.last() != '.',
    ensures
        up_to_name(path, lead) == path,
{
    lemma_last_cut(path, lead);
    let cut = last_cut(path, lead);
    let piece = last_piece(path, lead);
    if path[cut] == '/' {
        assert(cut < path.len() - 1);
        assert(piece.last() == path.last());
    } else {
        assert(piece.last() == path.last());
    }
}

/// The parent of a name in a directory is the directory, and that of a name alone is the
/// empty path.
pub proof fn law_parent_is_the_directory(dir: Seq<char>, name: Seq<char>)
    requires
        name.len() > 0,
        is_piece(name),
        name != seq!['.'],
    ensures
        dir.len() > 0 && dir.last() != '/' && dir.last() != '.' ==> parent(dir + "/"@ + name)
            == Some(dir),
        parent(name) == Some(Seq::<char>::empty()),
{
    reveal_strlit("/");
    assert("/"@ =~= seq!['/']);
    if dir.len() > 0 && dir.last() != '/' && dir.last() != '.' {
        let path = dir + "/"@ + name;
        let lead = lead_len(path);
        assert(path[0] == dir[0]);
        if lead == 1 {
            assert(dir.len() > 1) by {
                if dir.len() == 1 {
                    assert(dir.last() == dir[0]);
                }
            }
        }
        lemma_last_cut_is(dir, name, lead);
        assert(path[dir.len() as int] == '/');
        assert(path.skip(dir.len() as int + 1) =~= name);
        assert(last_piece(path, lead) == name);
        assert(up_to_name(path, lead) == path);
        assert(path.take(dir.len() as int) =~= dir);
        lemma_up_to_name_is(dir, lead);
    }
    let none = Seq::<char>::empty();
    assert(name[0] != '/') by {
        assert(name.contains(name[0]));
    }
    if name.len() == 1 && name[0] == '.' {
        assert(name =~= seq!['.']);
    }
    if name.len() > 1 {
        assert(name.contains(name[1]));
    }
    assert(lead_len(name) == 0);
    lemma_last_cut_of_name(name);
    assert(last_piece(name, 0) =~= name);
    assert(up_to_name(name, 0) == name);
    assert(name.take(0) =~= none);
}

/// The depth of pieces one after the other.
proof fn lemma_depth_adds(a: Seq<Seq<char>>, b: Seq<Seq<char>>)
    ensures
        depth(a + b) == depth(a) + depth(b),
    decreases b.len(),
{
    if b.len() == 0 {
        assert(a + b =~= a);
    } else {
        assert((a + b).last() == b.last());
        assert((a + b).drop_last() =~= a + b.drop_last());
        lemma_depth_adds(a, b.drop_last());
    }
}

/// A name: a piece that leads one directory down.
pub open spec fn is_name(s: Seq<char>) -> bool {
    s.len() > 0 && is_piece(s) && s != "."@ && s != ".."@
}

/// Going down and up again leads nowhere: it changes nothing about whether a path stays
/// below. A path that begins by going up, ends by it or begins with a slash does not stay
/// below; one that goes down first stays below where the rest does.
pub proof fn law_going_up_is_counted(name: Seq<char>, rel: Seq<char>)
    requires
        is_name(name),
        !(rel.len() > 0 && rel[0] == '/'),
    ensures
        stays_below(name + "/../"@ + rel) == stays_below(rel),
        stays_below(rel) ==> stays_below(name + "/"@ + rel),
        stays_below(name),
        !stays_below("../"@ + rel),
        !stays_below("/"@ + rel),
        !stays_below(rel + "/.."@),
        !stays_below(".."@),
{
    reveal_strlit("/../");
    reveal_strlit("../");
    reveal_strlit("/..");
    reveal_strlit("..");
    reveal_strlit("/");
    reveal_strlit(".");
    let slash = seq!['/'];
    let up = seq!['.', '.'];
    let pieces = split(rel, slash);
    assert("."@ =~= seq!['.']);
    assert(".."@ =~= up);
    assert(name.contains(name[0]));
    lemma_symbol_not_found(name, slash);
    assert(!up.contains('/'));
    lemma_symbol_not_found(up, slash);
    law_pieces_join_again(rel, slash);
    assert(split(name, slash) =~= seq![name]);
    assert(split(up, slash) =~= seq![up]);
    // Down and up again.
    let around = name + "/../"@ + rel;
    assert(around =~= name + slash + (up + slash + rel));
    lemma_split_first(up, slash, rel);
    lemma_split_first(name, slash, up + slash + rel);
    let lead = seq![name, up];
    let all = split(around, slash);
    assert(all =~= lead + pieces);
    reveal_with_fuel(depth, 3);
    assert(lead.drop_last() =~= seq![name]);
    assert(seq![name].drop_last() =~= seq![]);
    assert(depth(seq![name]) == 1);
    assert(depth(lead) == 0);
    assert forall|n: int| 2 <= n <= all.len() implies depth(#[trigger] all.take(n)) == depth(
        pieces.take(n - 2),
    ) by {
        assert(all.take(n) =~= lead + pieces.take(n - 2));
        lemma_depth_adds(lead, pieces.take(n - 2));
    }
    assert(all.take(0) =~= seq![]);
    assert(all.take(1) =~= seq![name]);
    assert(all.last() == pieces.last());
    assert(around[0] == name[0]);
    if stays_below(rel) {
        assert forall|n: int| 0 <= n <= all.len() implies depth(#[trigger] all.take(n)) >= 0 by {
            if n >= 2 {
                assert(depth(pieces.take(n - 2)) >= 0);
            }
        }
    }
    if stays_below(around) {
        assert forall|n: int| 0 <= n <= pieces.len() implies depth(#[trigger] pieces.take(n))
            >= 0 by {
            assert(depth(all.take(n + 2)) >= 0);
        }
    }
    // Down.
    let down = name + "/"@ + rel;
    assert(down =~= name + slash + rel);
    lemma_split_first(name, slash, rel);
    let below = split(down, slash);
    assert(below =~= seq![name] + pieces);
    if stays_below(rel) {
        assert forall|n: int| 0 <= n <= below.len() implies depth(#[trigger] below.take(n))
            >= 0 by {
            if n >= 1 {
                assert(below.take(n) =~= seq![name] + pieces.take(n - 1));
                lemma_depth_adds(seq![name], pieces.take(n - 1));
                assert(depth(pieces.take(n - 1)) >= 0);
            } else {
                assert(below.take(0) =~= seq![]);
            }
        }
        assert(below.last() == pieces.last());
        assert(down[0] == name[0]);
    }
    // A name alone.
    let one = split(name, slash);
    assert forall|n: int| 0 <= n <= one.len() implies depth(#[trigger] one.take(n)) >= 0 by {
        if n == 0 {
            assert(one.take(0) =~= seq![]);
        } else {
            assert(one.take(1) =~= seq![name]);
        }
    }
    // Up at the start.
    let above = "../"@ + rel;
    assert(above =~= up + slash + rel);
    let high = split(above, slash);
    assert(high =~= seq![up] + pieces);
    assert(high.take(1) =~= seq![up]);
    assert(seq![up].drop_last() =~= seq![]);
    assert(depth(high.take(1)) == -1);
    // Up at the end.
    let ending = rel + "/.."@;
    assert(ending =~= rel + slash + up);
    lemma_split_append(rel, slash, up);
    assert(split(ending, slash).last() == up);
    assert(("/"@ + rel)[0] == '/');
}

/// A slash at the end of a path, and a dot after it, change nothing about its extension; going
/// up leaves none; and a dot at the end of a name has nothing behind it.
pub proof fn law_extension_is_that_of_the_last_name(path: Seq<char>, base: Seq<char>)
    ensures
        extension(path + "/"@) == extension(path),
        extension(path + "/."@) == extension(path),
        extension(path + "/.."@) is None,
        base.len() > 0 && base.last() != '/' && base.last() != '.' ==> extension(base + "."@)
            == Some(Seq::<char>::empty()),
{
    reveal_strlit("/");
    reveal_strlit("/.");
    reveal_strlit("/..");
    reveal_strlit(".");
    let slash = seq!['/'];
    let none = Seq::<char>::empty();
    let dot = seq!['.'];
    let up = seq!['.', '.'];
    let pieces = split(path, slash);
    lemma_symbol_not_found(none, slash);
    lemma_symbol_not_found(dot, slash);
    lemma_symbol_not_found(up, slash);
    lemma_split_append(path, slash, none);
    lemma_split_append(path, slash, dot);
    lemma_split_append(path, slash, up);
    assert(path + "/"@ =~= path + slash + none);
    assert(path + "/."@ =~= path + slash + dot);
    assert(path + "/.."@ =~= path + slash + up);
    assert(split(path + "/"@, slash) =~= pieces.push(none));
    assert(split(path + "/."@, slash) =~= pieces.push(dot));
    assert(split(path + "/.."@, slash) =~= pieces.push(up));
    assert(pieces.push(none).drop_last() =~= pieces);
    assert(pieces.push(dot).drop_last() =~= pieces);
    assert(up.len() == 2 && dot.len() == 1);
    if base.len() > 0 && base.last() != '/' && base.last() != '.' {
        assert("."@ =~= dot);
        assert(is_piece(dot));
        lemma_last_piece_goes_on(base, dot);
        lemma_last_piece_not_empty(base);
        let last = split(base, slash).last();
        let name = last + dot;
        assert(split(base + dot, slash).last() == name);
        assert(name[0] == last[0]);
        if name == up {
            assert(last.len() == 1);
            assert(last.last() == '.');
        }
        lemma_last_dot(last, none);
        assert(last + seq!['.'] + none =~= name);
        assert(name.skip(last.len() as int + 1) =~= none);
    }
}

/// A cut stands where the name may begin at the earliest, or at a slash.
proof fn lemma_cut_at_slash(path: Seq<char>, lead: int)
    requires
        0 <= lead < path.len(),
    ensures
        last_cut(path, lead) == lead || path[last_cut(path, lead)] == '/',
    decreases path.len(),
{
    if path.last() != '/' {
        if path.len() - 1 > lead {
            lemma_last_cut(path.drop_last(), lead);
            lemma_cut_at_slash(path.drop_last(), lead);
        } else {
            assert(last_cut(path.drop_last(), lead) == lead);
        }
    }
}

/// What the name of a path is after one more piece.
proof fn lemma_one_more_piece(dir: Seq<char>, piece: Seq<char>)
    requires
        dir.len() > 0,
        is_piece(piece),
    ensures
        ({
            let path = dir + seq!['/'] + piece;
            let lead = lead_len(dir);
            &&& lead_len(path) == lead
            &&& lead <= dir.len()
            &&& up_to_name(path, lead) == if piece.len() == 0 || piece == seq!['.'] {
                up_to_name(dir, lead)
            } else {
                path
            }
            &&& piece.len() > 0 && piece != seq!['.'] ==> parent(path) == Some(
                up_to_name(dir, lead),
            )
        }),
{
    let path = dir + seq!['/'] + piece;
    let lead = lead_len(dir);
    assert(path[0] == dir[0]);
    if dir.len() == 1 {
        assert(path[1] == '/');
    } else {
        assert(path[1] == dir[1]);
    }
    assert(lead_len(path) == lead);
    lemma_last_cut_is(dir, piece, lead);
    assert(path[dir.len() as int] == '/');
    assert(path.skip(dir.len() as int + 1) =~= piece);
    assert(last_piece(path, lead) == piece);
    assert(path.take(dir.len() as int) =~= dir);
}

/// The directory of a path is told by what stands before its last name. More slashes than one
/// and pieces of a single dot change nothing; a name below the root has the root as its
/// directory; and neither the root nor an empty path has one.
pub proof fn law_directories_are_told(dir: Seq<char>, name: Seq<char>)
    requires
        name.len() > 0,
        is_piece(name),
        name != seq!['.'],
    ensures
        dir.len() > 0 && dir.last() != '/' && !(dir.len() > 1 && dir.last() == '.' && dir[dir.len()
            - 2] == '/') ==> parent(dir + "/"@ + name) == Some(dir),
        dir.len() > 0 ==> parent(dir + "//"@ + name) == parent(dir + "/"@ + name),
        dir.len() > 0 ==> parent(dir + "/./"@ + name) == parent(dir + "/"@ + name),
        dir.len() > 0 ==> parent(dir + "/"@) == parent(dir),
        dir.len() > 0 ==> parent(dir + "/."@) == parent(dir),
        parent("/"@ + name) == Some("/"@),
        parent(Seq::<char>::empty()) is None,
        parent("/"@) is None,
        parent("."@) == Some(Seq::<char>::empty()),
{
    reveal_strlit("/");
    reveal_strlit("//");
    reveal_strlit("/./");
    reveal_strlit("/.");
    reveal_strlit(".");
    let slash = seq!['/'];
    let none = Seq::<char>::empty();
    let dot = seq!['.'];
    assert("/"@ =~= slash);
    assert("."@ =~= dot);
    assert(is_piece(none));
    assert(is_piece(dot));
    if dir.len() > 0 {
        let once = dir + slash + none;
        let dotted = dir + slash + dot;
        lemma_one_more_piece(dir, name);
        lemma_one_more_piece(dir, none);
        lemma_one_more_piece(dir, dot);
        lemma_one_more_piece(once, name);
        lemma_one_more_piece(dotted, name);
        assert(dir + "//"@ + name =~= once + slash + name);
        assert(dir + "/./"@ + name =~= dotted + slash + name);
        assert(dir + "/"@ =~= once);
        assert(dir + "/."@ =~= dotted);
        assert(once[0] == dir[0] && dotted[0] == dir[0]);
        let lead = lead_len(dir);
        if dir.last() != '/' && !(dir.len() > 1 && dir.last() == '.' && dir[dir.len() - 2] == '/')
            && dir.len() > lead {
            lemma_last_cut(dir, lead);
            lemma_cut_at_slash(dir, lead);
            let cut = last_cut(dir, lead);
            let piece = last_piece(dir, lead);
            assert(dir[cut] == '/' ==> cut < dir.len() - 1);
            assert(piece.last() == dir.last());
            if piece == dot {
                assert(piece.len() == 1);
            }
            assert(up_to_name(dir, lead) == dir);
        }
    }
    let top = "/"@ + name;
    assert(top[0] == '/');
    assert(lead_len(top) == 1);
    lemma_last_cut(top, 1);
    lemma_cut_at_slash(top, 1);
    let cut = last_cut(top, 1);
    assert(top[cut] == name[cut - 1]);
    assert(name.contains(name[cut - 1]));
    assert(cut == 1);
    assert(top.skip(1) =~= name);
    assert(last_piece(top, 1) == name);
    assert(top.take(1) =~= "/"@);
    assert(lead_len("/"@) == 1 && lead_len("."@) == 1);
}

/// Pieces that lead nowhere, and never up on the way, can stand between others.
proof fn lemma_pieces_between(a: Seq<Seq<char>>, between: Seq<Seq<char>>, b: Seq<Seq<char>>)
    requires
        depth(between) == 0,
        forall|n: int| 0 <= n <= between.len() ==> depth(#[trigger] between.take(n)) >= 0,
    ensures
        (forall|n: int|
            0 <= n <= (a + between + b).len() ==> depth(#[trigger] (a + between + b).take(n)) >= 0)
            == (forall|n: int| 0 <= n <= (a + b).len() ==> depth(#[trigger] (a + b).take(n)) >= 0),
{
    let long = a + between + b;
    let short = a + b;
    let i = a.len() as int;
    let j = between.len() as int;
    assert(short.take(i) =~= a);
    assert(long.take(i) =~= a);
    assert forall|n: int| 0 <= n <= long.len() implies depth(#[trigger] long.take(n)) == if n <= i {
        depth(short.take(n))
    } else if n <= i + j {
        depth(a) + depth(between.take(n - i))
    } else {
        depth(short.take(n - j))
    } by {
        if n <= i {
            assert(long.take(n) =~= short.take(n));
        } else if n <= i + j {
            assert(long.take(n) =~= a + between.take(n - i));
            lemma_depth_adds(a, between.take(n - i));
        } else {
            let m = n - i - j;
            assert(long.take(n) =~= a + between + b.take(m));
            assert(short.take(n - j) =~= a + b.take(m));
            lemma_depth_adds(a + between, b.take(m));
            lemma_depth_adds(a, between);
            lemma_depth_adds(a, b.take(m));
        }
    }
    if forall|n: int| 0 <= n <= short.len() ==> depth(#[trigger] short.take(n)) >= 0 {
        assert forall|n: int| 0 <= n <= long.len() implies depth(#[trigger] long.take(n)) >= 0 by {
            assert(depth(short.take(i)) >= 0);
            if n <= i {
                assert(depth(short.take(n)) >= 0);
            } else if n <= i + j {
                assert(depth(between.take(n - i)) >= 0);
            } else {
                assert(depth(short.take(n - j)) >= 0);
            }
        }
    }
    if forall|n: int| 0 <= n <= long.len() ==> depth(#[trigger] long.take(n)) >= 0 {
        assert forall|n: int| 0 <= n <= short.len() implies depth(#[trigger] short.take(n))
            >= 0 by {
            if n <= i {
                assert(depth(long.take(n)) >= 0);
            } else {
                assert(depth(long.take(n + j)) >= 0);
            }
        }
    }
}

/// Whether a path stays below does not change by a dot between its slashes, by more slashes
/// than one, nor by going down to a name and up again, wherever in the path that stands.
pub proof fn law_detours_do_not_count(start: Seq<char>, name: Seq<char>, rel: Seq<char>)
    requires
        start.len() > 0,
        start[0] != '/',
        is_name(name),
    ensures
        stays_below(start + "/./"@ + rel) == stays_below(start + "/"@ + rel),
        stays_below(start + "//"@ + rel) == stays_below(start + "/"@ + rel),
        stays_below(start + "/"@ + name + "/../"@ + rel) == stays_below(start + "/"@ + rel),
        !(rel.len() > 0 && rel[0] == '/') ==> stays_below("./"@ + rel) == stays_below(rel),
{
    reveal_strlit("/./");
    reveal_strlit("//");
    reveal_strlit("/");
    reveal_strlit("./");
    reveal_strlit(".");
    reveal_strlit("..");
    reveal_strlit("/../");
    let slash = seq!['/'];
    let none = Seq::<char>::empty();
    let dot = seq!['.'];
    let up = seq!['.', '.'];
    let a = split(start, slash);
    let b = split(rel, slash);
    assert("."@ =~= dot);
    assert(".."@ =~= up);
    lemma_symbol_not_found(none, slash);
    lemma_symbol_not_found(dot, slash);
    lemma_symbol_not_found(up, slash);
    assert(name.contains(name[0]));
    lemma_symbol_not_found(name, slash);
    law_pieces_join_again(rel, slash);
    lemma_split_append(none, slash, rel);
    lemma_split_append(dot, slash, rel);
    lemma_split_append(up, slash, rel);
    lemma_split_append(name, slash, up + slash + rel);
    lemma_split_append(start, slash, rel);
    lemma_split_append(start, slash, none + slash + rel);
    lemma_split_append(start, slash, dot + slash + rel);
    lemma_split_append(start, slash, name + slash + (up + slash + rel));
    let plain = start + "/"@ + rel;
    let dotted = start + "/./"@ + rel;
    let double = start + "//"@ + rel;
    let around = start + "/"@ + name + "/../"@ + rel;
    assert(plain =~= start + slash + rel);
    assert(dotted =~= start + slash + (dot + slash + rel));
    assert(double =~= start + slash + (none + slash + rel));
    assert(around =~= start + slash + (name + slash + (up + slash + rel)));
    assert(split(plain, slash) =~= a + b);
    assert(split(dotted, slash) =~= a + seq![dot] + b);
    assert(split(double, slash) =~= a + seq![none] + b);
    assert(split(around, slash) =~= a + seq![name, up] + b);
    reveal_with_fuel(depth, 3);
    assert(seq![dot].drop_last() =~= seq![]);
    assert(seq![none].drop_last() =~= seq![]);
    assert(seq![name, up].drop_last() =~= seq![name]);
    assert(seq![name].drop_last() =~= seq![]);
    assert(seq![dot].take(0) =~= seq![] && seq![dot].take(1) =~= seq![dot]);
    assert(seq![none].take(0) =~= seq![] && seq![none].take(1) =~= seq![none]);
    assert(seq![name, up].take(0) =~= seq![] && seq![name, up].take(1) =~= seq![name]
        && seq![name, up].take(2) =~= seq![name, up]);
    lemma_pieces_between(a, seq![dot], b);
    lemma_pieces_between(a, seq![none], b);
    lemma_pieces_between(a, seq![name, up], b);
    assert(plain[0] == start[0] && dotted[0] == start[0] && double[0] == start[0] && around[0]
        == start[0]);
    let ahead = "./"@ + rel;
    assert(ahead =~= dot + slash + rel);
    assert(ahead[0] == '.');
    let no_pieces = Seq::<Seq<char>>::empty();
    assert(split(ahead, slash) =~= no_pieces + seq![dot] + b);
    assert(no_pieces + b =~= b);
    lemma_pieces_between(no_pieces, seq![dot], b);
}

} // verus!
