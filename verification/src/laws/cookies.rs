//! Cookies are read back as a client writes them.
use vstd::prelude::*;
use vstd::utf8::is_ascii_chars;

use crate::cookies::{cookies_in, cookies_in_pieces};
use crate::laws::numbers::{is_written_digit, lemma_digits};
use crate::laws::requests::{
    header_table, is_header, is_word, law_request_is_read_back, request_bytes,
};
use crate::laws::splitting::{
    joined_by, lemma_before_first, lemma_split_first, lemma_split_joined, lemma_symbol_not_found,
    lemma_trim_drops_first, lemma_trim_keeps, lemma_trim_start,
};
use crate::laws::text::{is_all, law_pieces_join_again, law_trimming_leaves_what_is_between};
use crate::request::{request_in, RequestView};
use crate::search::{find, lemma_find_from, occurs_at, split, split_once};
use crate::server::{chosen_id, offered_id, script_session_id, set_cookie};
use crate::session::{session_id, Moment, SessionView, COOKIE_NAME};
use crate::text::{is_white, lowercase, trim, trim_end, white};

verus! {

/// A name and a value that a cookie can have.
pub open spec fn is_cookie(cookie: (Seq<char>, Seq<char>)) -> bool {
    &&& !cookie.0.contains('=')
    &&& !cookie.0.contains(';')
    &&& !cookie.1.contains(';')
    &&& cookie.0.len() > 0 ==> !is_white(cookie.0[0])
    &&& cookie.1.len() > 0 ==> !is_white(cookie.1.last())
}

/// A cookie as a client writes it.
pub open spec fn cookie_text(cookie: (Seq<char>, Seq<char>)) -> Seq<char> {
    cookie.0 + "="@ + cookie.1
}

/// The pieces of a cookie header as a client writes it: a space before each but the first.
pub open spec fn cookie_pieces(cookies: Seq<(Seq<char>, Seq<char>)>) -> Seq<Seq<char>> {
    Seq::new(
        cookies.len(),
        |i: int|
            if i == 0 {
                cookie_text(cookies[i])
            } else {
                seq![' '] + cookie_text(cookies[i])
            },
    )
}

/// A cookie header as a client writes it.
pub open spec fn cookie_header(cookies: Seq<(Seq<char>, Seq<char>)>) -> Seq<char> {
    joined_by(cookie_pieces(cookies), ";"@)
}

/// The cookies by their names; a later one counts over an earlier one.
pub open spec fn cookie_table(cookies: Seq<(Seq<char>, Seq<char>)>) -> Map<Seq<char>, Seq<char>>
    decreases cookies.len(),
{
    if cookies.len() == 0 {
        Map::empty()
    } else {
        cookie_table(cookies.drop_last()).insert(cookies.last().0, cookies.last().1)
    }
}

/// A piece is read as its cookie.
proof fn lemma_piece(cookies: Seq<(Seq<char>, Seq<char>)>, i: int)
    requires
        0 <= i < cookies.len(),
        is_cookie(cookies[i]),
    ensures
        trim(cookie_pieces(cookies)[i]) == cookie_text(cookies[i]),
        split_once(cookie_text(cookies[i]), "="@) == Some(cookies[i]),
        find(cookie_pieces(cookies)[i], ";"@) is None,
{
    reveal_strlit("=");
    reveal_strlit(";");
    let (name, value) = cookies[i];
    let text = cookie_text(cookies[i]);
    assert(text[0] == if name.len() > 0 {
        name[0]
    } else {
        '='
    });
    assert(text.last() == if value.len() > 0 {
        value.last()
    } else {
        '='
    });
    lemma_trim_keeps(text, white());
    lemma_trim_drops_first(' ', text, white());
    lemma_symbol_not_found(name, "="@);
    lemma_split_first(name, "="@, value);
    let piece = cookie_pieces(cookies)[i];
    if piece.contains(';') {
        let k = choose|k: int| 0 <= k < piece.len() && piece[k] == ';';
        let shift: int = if i == 0 {
            0
        } else {
            1
        };
        assert(text[k - shift] == ';');
        if k - shift < name.len() {
            assert(name[k - shift] == ';');
        } else if k - shift > name.len() {
            assert(value[k - shift - name.len() - 1] == ';');
        }
    }
    lemma_symbol_not_found(piece, ";"@);
}

/// The pieces are read as the cookies.
proof fn lemma_pieces(cookies: Seq<(Seq<char>, Seq<char>)>)
    requires
        forall|i: int| 0 <= i < cookies.len() ==> is_cookie(#[trigger] cookies[i]),
    ensures
        cookies_in_pieces(cookie_pieces(cookies)) == cookie_table(cookies),
    decreases cookies.len(),
{
    if cookies.len() > 0 {
        let before = cookies.drop_last();
        assert(cookie_pieces(cookies).drop_last() =~= cookie_pieces(before));
        assert forall|i: int| 0 <= i < before.len() implies is_cookie(#[trigger] before[i]) by {
            assert(before[i] == cookies[i]);
        }
        lemma_pieces(before);
        lemma_piece(cookies, cookies.len() - 1);
    }
}

/// The cookies that a client writes into a header are the ones that are read from it.
pub proof fn law_cookies_are_read_back(cookies: Seq<(Seq<char>, Seq<char>)>)
    requires
        cookies.len() > 0,
        forall|i: int| 0 <= i < cookies.len() ==> is_cookie(#[trigger] cookies[i]),
    ensures
        cookies_in(cookie_header(cookies)) == cookie_table(cookies),
{
    reveal_strlit(";");
    let pieces = cookie_pieces(cookies);
    assert forall|i: int| 0 <= i < pieces.len() implies find(
        #[trigger] pieces[i],
        ";"@,
    ) is None by {
        assert(is_cookie(cookies[i]));
        lemma_piece(cookies, i);
    }
    lemma_split_joined(pieces, ";"@);
    lemma_pieces(cookies);
}

/// The only cookie of its name is the one that counts.
proof fn lemma_only_cookie(cookies: Seq<(Seq<char>, Seq<char>)>, i: int)
    requires
        0 <= i < cookies.len(),
        forall|j: int|
            0 <= j < cookies.len() && j != i ==> (#[trigger] cookies[j]).0 != cookies[i].0,
    ensures
        cookie_table(cookies).contains_key(cookies[i].0),
        cookie_table(cookies)[cookies[i].0] == cookies[i].1,
    decreases cookies.len(),
{
    let before = cookies.drop_last();
    if i < before.len() {
        assert forall|j: int| 0 <= j < before.len() && j != i implies (#[trigger] before[j]).0
            != before[i].0 by {
            assert(before[j] == cookies[j]);
        }
        lemma_only_cookie(before, i);
        assert(cookies[cookies.len() - 1].0 != cookies[i].0);
    }
}

/// A request with the session cookie in its header, among other cookies, names the session.
proof fn lemma_cookie_names_session(
    moment: Moment,
    cookies: Seq<(Seq<char>, Seq<char>)>,
    i: int,
    request: RequestView,
)
    requires
        0 <= i < cookies.len(),
        cookies[i] == (COOKIE_NAME@, session_id(moment)),
        forall|j: int|
            0 <= j < cookies.len() && j != i ==> is_cookie(#[trigger] cookies[j]) && cookies[j].0
                != COOKIE_NAME@,
        request.headers.contains_key("cookie"@),
        request.headers["cookie"@] == cookie_header(cookies),
    ensures
        offered_id(request) == Some(session_id(moment)),
{
    reveal_strlit("RUSTSESSIONID");
    let id = session_id(moment);
    lemma_digits(moment.number as nat, 16);
    assert(is_written_digit(id.last()));
    if id.contains(';') {
        let k = choose|k: int| 0 <= k < id.len() && id[k] == ';';
        assert(is_written_digit(id[k]));
    }
    assert(is_cookie(cookies[i]));
    law_cookies_are_read_back(cookies);
    lemma_only_cookie(cookies, i);
}

/// The only header of its name is the one that counts.
proof fn lemma_only_header(headers: Seq<(Seq<char>, Seq<char>)>, k: int)
    requires
        0 <= k < headers.len(),
        forall|j: int|
            0 <= j < headers.len() && j != k ==> lowercase((#[trigger] headers[j]).0) != lowercase(
                headers[k].0,
            ),
    ensures
        header_table(headers).contains_key(lowercase(headers[k].0)),
        header_table(headers)[lowercase(headers[k].0)] == headers[k].1,
    decreases headers.len(),
{
    let before = headers.drop_last();
    if k < before.len() {
        assert forall|j: int| 0 <= j < before.len() && j != k implies lowercase(
            (#[trigger] before[j]).0,
        ) != lowercase(before[k].0) by {
            assert(before[j] == headers[j]);
        }
        lemma_only_header(before, k);
        assert(lowercase(headers[headers.len() - 1].0) != lowercase(headers[k].0));
    }
}

/// A client that was given a session and sends its cookie back, among other cookies and
/// other headers, names the session with its request.
pub proof fn law_session_cookie_comes_back(
    moment: Moment,
    cookies: Seq<(Seq<char>, Seq<char>)>,
    i: int,
    headers: Seq<(Seq<char>, Seq<char>)>,
    k: int,
    method: Seq<char>,
    path: Seq<char>,
    version: Seq<char>,
    body: Seq<u8>,
)
    requires
        0 <= i < cookies.len(),
        cookies[i] == (COOKIE_NAME@, session_id(moment)),
        forall|j: int|
            0 <= j < cookies.len() && j != i ==> is_cookie(#[trigger] cookies[j]) && cookies[j].0
                != COOKIE_NAME@,
        0 <= k < headers.len(),
        headers[k] == ("Cookie"@, cookie_header(cookies)),
        forall|j: int| 0 <= j < headers.len() ==> is_header(#[trigger] headers[j]),
        forall|j: int|
            0 <= j < headers.len() && j != k ==> lowercase((#[trigger] headers[j]).0)
                != "cookie"@,
        is_word(method),
        is_word(path),
        is_word(version),
    ensures
        match request_in(request_bytes(method, path, version, headers, body)) {
            Some(request) => offered_id(request) == Some(session_id(moment)),
            None => false,
        },
{
    reveal_strlit("Cookie");
    reveal_strlit("cookie");
    assert(is_ascii_chars("Cookie"@));
    assert(lowercase("Cookie"@) =~= "cookie"@);
    law_request_is_read_back(method, path, version, headers, body);
    lemma_only_header(headers, k);
    let request = request_in(request_bytes(method, path, version, headers, body))->0;
    lemma_cookie_names_session(moment, cookies, i, request);
}

/// The cookie that an answer hands out comes back: what stands before the first semicolon of
/// it is read as the cookie of that name with exactly the identifier, so that a request with
/// that text as its cookie header names the session. What follows asks for the whole site and
/// keeps scripts from reading the cookie.
pub proof fn law_handed_out_cookie_comes_back(id: Seq<char>, request: RequestView)
    requires
        !id.contains(';'),
        id.len() > 0 ==> !is_white(id.last()),
    ensures
        ({
            let handed = split_once(set_cookie(id), ";"@);
            &&& handed is Some
            &&& (handed->0).1 == " Path=/; HttpOnly"@
            &&& cookies_in((handed->0).0) == Map::<Seq<char>, Seq<char>>::empty().insert(
                "RUSTSESSIONID"@,
                id,
            )
            &&& request.headers.contains_key("cookie"@) && request.headers["cookie"@]
                == (handed->0).0 ==> offered_id(request) == Some(id)
        }),
{
    reveal_strlit("RUSTSESSIONID");
    reveal_strlit("=");
    reveal_strlit(";");
    reveal_strlit("; Path=/; HttpOnly");
    reveal_strlit(" Path=/; HttpOnly");
    let cookie = ("RUSTSESSIONID"@, id);
    let text = cookie_text(cookie);
    let list = seq![cookie];
    assert(is_cookie(list[0]));
    law_cookies_are_read_back(list);
    assert(cookie_pieces(list)[0] == text);
    assert(cookie_header(list) == text);
    assert(list.drop_last() =~= seq![]);
    assert(cookie_table(list.drop_last()) == Map::<Seq<char>, Seq<char>>::empty());
    lemma_piece(list, 0);
    assert(set_cookie(id) =~= text + ";"@ + " Path=/; HttpOnly"@);
    lemma_split_first(text, ";"@, " Path=/; HttpOnly"@);
}

/// A value that is read from a cookie header can be handed out as it is.
proof fn lemma_cookie_value(pieces: Seq<Seq<char>>, name: Seq<char>)
    requires
        forall|i: int| 0 <= i < pieces.len() ==> find(#[trigger] pieces[i], ";"@) is None,
        cookies_in_pieces(pieces).contains_key(name),
    ensures
        !cookies_in_pieces(pieces)[name].contains(';'),
        cookies_in_pieces(pieces)[name].len() > 0 ==> !is_white(
            cookies_in_pieces(pieces)[name].last(),
        ),
    decreases pieces.len(),
{
    if pieces.len() > 0 {
        let before = pieces.drop_last();
        let piece = pieces[pieces.len() - 1];
        let text = trim(piece);
        assert forall|i: int| 0 <= i < before.len() implies find(
            #[trigger] before[i],
            ";"@,
        ) is None by {
            assert(before[i] == pieces[i]);
        }
        reveal_strlit("=");
        reveal_strlit(";");
        match split_once(text, "="@) {
            Some((n, value)) => {
                if n == name {
                    lemma_before_first(text, "="@);
                    if value.contains(';') {
                        let j = choose|j: int| 0 <= j < value.len() && value[j] == ';';
                        let at = find(text, "="@)->0;
                        assert(text[at + 1 + j] == ';');
                        lemma_trim_is_part(piece);
                        let lo = choose|lo: int|
                            #![trigger piece.skip(lo)]
                            0 <= lo <= piece.len() && text.len() <= piece.len() - lo && text
                                == piece.skip(lo).take(text.len() as int);
                        assert(piece[lo + at + 1 + j] == ';');
                        lemma_find_from(piece, ";"@, 0);
                        let p = lo + at + 1 + j;
                        assert(piece.subrange(p, p + 1) =~= ";"@);
                        assert(occurs_at(piece, ";"@, p));
                    }
                    if value.len() > 0 {
                        assert(value.last() == text.last());
                        lemma_trim_ends(piece);
                    }
                } else {
                    lemma_cookie_value(before, name);
                }
            },
            None => {
                lemma_cookie_value(before, name);
            },
        }
    }
}

/// A trimmed text is a part of the text.
proof fn lemma_trim_is_part(s: Seq<char>)
    ensures
        exists|lo: int|
            #![trigger s.skip(lo)]
            0 <= lo <= s.len() && trim(s).len() <= s.len() - lo && trim(s) == s.skip(lo).take(
                trim(s).len() as int,
            ),
{
    let lo = lemma_trim_start(s, white());
    lemma_trim_end_is_start(s.skip(lo));
    assert(trim(s) == s.skip(lo).take(trim(s).len() as int));
}

/// A text trimmed at its end is a start of the text and does not end with white space.
proof fn lemma_trim_end_is_start(s: Seq<char>)
    ensures
        trim_end(s, white()).len() <= s.len(),
        trim_end(s, white()) == s.take(trim_end(s, white()).len() as int),
        trim_end(s, white()).len() > 0 ==> !is_white(trim_end(s, white()).last()),
    decreases s.len(),
{
    if s.len() > 0 && is_white(s.last()) {
        lemma_trim_end_is_start(s.drop_last());
        let n = trim_end(s, white()).len() as int;
        assert(s.drop_last().take(n) =~= s.take(n));
    } else {
        assert(s.take(s.len() as int) =~= s);
    }
}

/// A trimmed text does not end with white space.
proof fn lemma_trim_ends(s: Seq<char>)
    ensures
        trim(s).len() > 0 ==> !is_white(trim(s).last()),
{
    let lo = lemma_trim_start(s, white());
    lemma_trim_end_is_start(s.skip(lo));
}

/// The session of an answered request is named again by a request that sends back what was
/// handed out with the answer.
pub proof fn law_answered_session_is_named_again(
    sessions: Map<Seq<char>, SessionView>,
    request: RequestView,
    moment: Moment,
    next: RequestView,
)
    requires
        next.headers.contains_key("cookie"@),
    ensures
        ({
            let id = chosen_id(sessions, request, moment);
            let handed = split_once(set_cookie(id), ";"@);
            &&& handed is Some
            &&& next.headers["cookie"@] == (handed->0).0 ==> offered_id(next) == Some(id)
        }),
        ({
            let id = script_session_id(request, moment);
            let handed = split_once(set_cookie(id), ";"@);
            &&& handed is Some
            &&& next.headers["cookie"@] == (handed->0).0 ==> offered_id(next) == Some(id)
        }),
{
    lemma_offered_id_can_be_handed_out(request);
    let fresh = session_id(moment);
    lemma_digits(moment.number as nat, 16);
    assert(is_written_digit(fresh.last()));
    if fresh.contains(';') {
        let k = choose|k: int| 0 <= k < fresh.len() && fresh[k] == ';';
        assert(is_written_digit(fresh[k]));
    }
    law_handed_out_cookie_comes_back(chosen_id(sessions, request, moment), next);
    law_handed_out_cookie_comes_back(script_session_id(request, moment), next);
}

/// The identifier that a request names can be handed out again.
proof fn lemma_offered_id_can_be_handed_out(request: RequestView)
    ensures
        offered_id(request) is Some ==> !offered_id(request)->0.contains(';') && (offered_id(
            request,
        )->0.len() > 0 ==> !is_white(offered_id(request)->0.last())),
{
    reveal_strlit(";");
    if offered_id(request) is Some {
        let header = request.headers["cookie"@];
        law_pieces_join_again(header, ";"@);
        lemma_cookie_value(split(header, ";"@), COOKIE_NAME@);
    }
}

/// A piece of a cookie header without an equals sign gives no cookie, and a request without a
/// cookie header names no session.
pub proof fn law_only_cookies_count(
    pieces: Seq<Seq<char>>,
    piece: Seq<char>,
    request: RequestView,
)
    ensures
        !trim(piece).contains('=') ==> cookies_in_pieces(pieces.push(piece)) == cookies_in_pieces(
            pieces,
        ),
        !request.headers.contains_key("cookie"@) ==> offered_id(request) is None,
{
    reveal_strlit("=");
    assert(pieces.push(piece).drop_last() =~= pieces);
    if !trim(piece).contains('=') {
        lemma_symbol_not_found(trim(piece), "="@);
    }
}

/// Each piece of a cookie header with an equals sign gives a cookie, over an earlier one of the
/// same name: what stands before the first equals sign is its name, and what stands behind it
/// is its value, without the white space around the piece.
pub proof fn law_each_piece_gives_its_cookie(
    pieces: Seq<Seq<char>>,
    lead: Seq<char>,
    name: Seq<char>,
    value: Seq<char>,
    tail: Seq<char>,
)
    requires
        is_all(lead, |c: char| is_white(c)),
        is_all(tail, |c: char| is_white(c)),
        !name.contains('='),
        name.len() > 0 ==> !is_white(name[0]),
        value.len() > 0 ==> !is_white(value.last()),
    ensures
        cookies_in_pieces(Seq::<Seq<char>>::empty()) == Map::<Seq<char>, Seq<char>>::empty(),
        cookies_in_pieces(pieces.push(lead + name + "="@ + value + tail)) == cookies_in_pieces(
            pieces,
        ).insert(name, value),
{
    reveal_strlit("=");
    let cookie = name + "="@ + value;
    let piece = lead + name + "="@ + value + tail;
    assert(piece =~= lead + cookie + tail);
    assert(cookie[0] == if name.len() > 0 {
        name[0]
    } else {
        '='
    });
    assert(cookie.last() == if value.len() > 0 {
        value.last()
    } else {
        '='
    });
    law_trimming_leaves_what_is_between(lead, cookie, tail, '=');
    lemma_symbol_not_found(name, "="@);
    lemma_split_first(name, "="@, value);
    assert(pieces.push(piece).drop_last() =~= pieces);
}

} // verus!
