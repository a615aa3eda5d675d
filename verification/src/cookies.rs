//! The cookies of a request.
use vstd::prelude::*;

use crate::search::{cut, split, split_all, split_once, views};
use crate::table::TextMap;
use crate::text::{chars_of, string_of, trim, trimmed};

verus! {

/// The cookies that pieces of a cookie header give: a name, an equals sign, a value. A piece
/// without an equals sign gives none, and a later piece counts over an earlier one.
pub open spec fn cookies_in_pieces(pieces: Seq<Seq<char>>) -> Map<Seq<char>, Seq<char>>
    decreases pieces.len(),
{
    if pieces.len() == 0 {
        Map::empty()
    } else {
        let before = cookies_in_pieces(pieces.drop_last());
        match split_once(trim(pieces.last()), "="@) {
            Some((name, value)) => before.insert(name, value),
            None => before,
        }
    }
}

/// The cookies of a cookie header, whose pieces are separated by semicolons.
pub open spec fn cookies_in(header: Seq<char>) -> Map<Seq<char>, Seq<char>> {
    cookies_in_pieces(split(header, ";"@))
}

/// The cookies of a request with the given headers.
pub open spec fn cookies_of(headers: Map<Seq<char>, Seq<char>>) -> Map<Seq<char>, Seq<char>> {
    if headers.contains_key("cookie"@) {
        cookies_in(headers["cookie"@])
    } else {
        Map::empty()
    }
}

/// Reads the cookies of a request.
pub fn parse_cookies(headers: &TextMap<String>) -> (r: TextMap<String>)
    ensures
        r@ == cookies_of(headers@),
{
    let mut cookies: TextMap<String> = TextMap::new();
    let header = match headers.get("cookie") {
        None => {
            return cookies;
        },
        Some(header) => header,
    };
    let chars = chars_of(header.as_str());
    let semicolon = chars_of(";");
    let equals = chars_of("=");
    proof {
        reveal_strlit(";");
    }
    let pieces = split_all(chars.as_slice(), semicolon.as_slice());
    let ghost all = views(pieces@);
    let mut i: usize = 0;
    assert(all.take(0) =~= seq![]);
    while i < pieces.len()
        invariant
            i <= pieces@.len(),
            all == views(pieces@),
            equals@ == "="@,
            cookies@ == cookies_in_pieces(all.take(i as int)),
        decreases pieces@.len() - i,
    {
        assert(all.take(i + 1).drop_last() =~= all.take(i as int));
        assert(all.take(i + 1).last() == pieces@[i as int]@);
        if let Some((name, value)) = cut(trimmed(pieces[i]), equals.as_slice()) {
            cookies.insert(string_of(name), string_of(value));
        }
        i += 1;
    }
    assert(all.take(i as int) =~= all);
    cookies
}

} // verus!
