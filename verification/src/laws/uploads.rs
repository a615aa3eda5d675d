//! Uploaded files are kept as they were sent, under names without two dots in a row.
use vstd::prelude::*;
use vstd::utf8::{
    encode_utf8, encode_utf8_decode_utf8, encode_utf8_valid_utf8, is_ascii_chars,
    is_ascii_chars_encode_utf8,
};

use crate::config::{upload_limit, Config};
use crate::laws::encoding::{lemma_encode_concat, lemma_plain_byte_absent};
use crate::laws::scripts::{copies_of, lemma_copies_stripped};
use crate::laws::splitting::{
    joined_by, lemma_before_first, lemma_occurs_in_part, lemma_piece_stands, lemma_split_first,
    lemma_split_joined, lemma_symbol_not_found, lemma_trim_drops_first, lemma_trim_drops_pair,
    lemma_trim_keeps, lemma_trim_start,
};
use crate::laws::text::{
    is_all, law_begins_with, law_copies_are_stripped, law_replacing_joins_pieces,
    law_trimming_leaves_what_is_between, lemma_trim_start_takes_off,
};
use crate::multipart::{
    boundary_in_piece, boundary_in_pieces, boundary_of, closing_quote, ends_setting, file_in_part,
    files_from, is_closing, lemma_marker, lemma_part_bounds, marker_of, marker_places, name_in_head,
    name_in_line, name_in_lines, part_between, safe_name, unquoted, upload_path,
    uploaded_files, without_last_crlf, MultipartError, UploadView,
};
use crate::pages::{get_reply, is_upload, GetView};
use crate::path::{depth, stays_below};
use crate::request::{blank_line, crlf, RequestView};
use crate::response::{error_body, page};
use crate::search::{
    begins_with, find, find_from, lemma_find_from, lemma_find_is, lemma_find_none, occurs_at, split,
};
use crate::server::{chosen_id, handled, with_session, HandledView};
use crate::session::{Moment, SessionView};
use crate::status::StatusCode;
use crate::text::{
    ascii_lowercase, ascii_start, is_line_text, is_white, lowercase, only, replace, strip_copies,
    trim, trim_char, trim_end, trim_start, white,
};

verus! {

/// No text with two dots in a row is left where they are replaced by an underscore.
proof fn lemma_no_two_dots(s: Seq<char>)
    ensures
        find(replace(s, ".."@, "_"@), ".."@) is None,
    decreases s.len(),
{
    reveal_strlit("..");
    reveal_strlit("_");
    let dots = ".."@;
    if find(s, dots) is Some {
        let i = find(s, dots)->0;
        let before = s.subrange(0, i);
        let rest = s.skip(i + 2);
        lemma_before_first(s, dots);
        lemma_no_two_dots(rest);
        let tail = replace(rest, dots, "_"@);
        let r = replace(s, dots, "_"@);
        assert(r == before + "_"@ + tail);
        lemma_find_from(before, dots, 0);
        lemma_find_from(tail, dots, 0);
        assert forall|j: int| 0 <= j implies !occurs_at(r, dots, j) by {
            if occurs_at(r, dots, j) {
                let there = r.subrange(j, j + 2);
                assert(there[0] == r[j] && there[1] == r[j + 1]);
                if j + 2 <= i {
                    lemma_occurs_in_part(r, dots, 0, i, j);
                    assert(r.subrange(0, i) =~= before);
                } else if j >= i + 1 {
                    lemma_occurs_in_part(r, dots, i + 1, r.len() as int, j);
                    assert(r.subrange(i + 1, r.len() as int) =~= tail);
                } else {
                    assert(r[i] == '_');
                }
            }
        }
        lemma_find_none(r, dots, 0);
    }
}

/// A name under which a file is kept has no two dots in a row and stays below the directory.
proof fn lemma_safe_name(name: Seq<char>)
    ensures
        find(safe_name(name), ".."@) is None,
        stays_below(safe_name(name)),
{
    reveal_strlit("..");
    let dots = ".."@;
    let whole = replace(name, dots, "_"@);
    let safe = safe_name(name);
    lemma_no_two_dots(name);
    lemma_find_from(whole, dots, 0);
    let n = lemma_trim_start(whole, only('/'));
    assert forall|j: int| 0 <= j implies !occurs_at(safe, dots, j) by {
        if occurs_at(safe, dots, j) {
            lemma_occurs_in_part(whole, dots, n, whole.len() as int, n + j);
            assert(whole.subrange(n, whole.len() as int) =~= safe);
        }
    }
    lemma_find_none(safe, dots, 0);
    let pieces = split(safe, seq!['/']);
    assert forall|i: int| 0 <= i < pieces.len() implies #[trigger] pieces[i] != seq!['.', '.'] by {
        let j = lemma_piece_stands(safe, seq!['/'], i);
        if pieces[i] == seq!['.', '.'] {
            assert(dots =~= seq!['.', '.']);
            assert(occurs_at(safe, dots, j));
        }
    }
    assert forall|n: int| 0 <= n <= pieces.len() implies depth(#[trigger] pieces.take(n)) >= 0 by {
        lemma_never_up(pieces, n);
    }
    assert(pieces.last() == pieces[pieces.len() - 1]);
}

/// Pieces without two dots never lead up.
proof fn lemma_never_up(pieces: Seq<Seq<char>>, n: int)
    requires
        0 <= n <= pieces.len(),
        forall|i: int| 0 <= i < pieces.len() ==> #[trigger] pieces[i] != seq!['.', '.'],
    ensures
        depth(pieces.take(n)) >= 0,
    decreases n,
{
    if n > 0 {
        assert(pieces.take(n).drop_last() =~= pieces.take(n - 1));
        assert(pieces.take(n).last() == pieces[n - 1]);
        lemma_never_up(pieces, n - 1);
    }
}

/// The path of what stays below the directory of uploads leads into it.
proof fn lemma_upload_path(rel: Seq<char>)
    requires
        stays_below(rel),
    ensures
        upload_path(rel) == "uploads/"@ + rel,
{
    reveal_strlit("uploads");
    reveal_strlit("uploads/");
    assert(upload_path(rel) =~= "uploads/"@ + rel);
}

/// The name of an uploaded file is not empty and never has two dots in a row, and the file is
/// kept below the directory of uploads.
pub proof fn law_files_are_kept_below(body: Seq<u8>, content_type: Seq<char>, i: int)
    requires
        uploaded_files(body, content_type) is Ok,
        0 <= i < uploaded_files(body, content_type)->Ok_0.len(),
    ensures
        ({
            let name = (uploaded_files(body, content_type)->Ok_0)[i].name;
            &&& name.len() > 0
            &&& find(name, ".."@) is None
            &&& stays_below(name)
            &&& upload_path(name) == "uploads/"@ + name
        }),
{
    let marker = marker_of(boundary_of(content_type)->0);
    lemma_names(body, marker.len() as int, marker_places(body, marker, 0), 0, i);
    lemma_upload_path((uploaded_files(body, content_type)->Ok_0)[i].name);
}

/// The names of the files of the parts from one on.
proof fn lemma_names(body: Seq<u8>, marker_len: int, places: Seq<int>, k: int, i: int)
    requires
        0 <= i < files_from(body, marker_len, places, k).len(),
    ensures
        files_from(body, marker_len, places, k)[i].name.len() > 0,
        find(files_from(body, marker_len, places, k)[i].name, ".."@) is None,
        stays_below(files_from(body, marker_len, places, k)[i].name),
    decreases places.len() - k,
{
    let part = part_between(body, places[k] + marker_len, places[k + 1]);
    let rest = files_from(body, marker_len, places, k + 1);
    match file_in_part(part) {
        Some(file) => {
            if i == 0 {
                let at = find(part, blank_line())->0;
                lemma_safe_name(name_in_head(part.take(at))->0);
            } else {
                lemma_names(body, marker_len, places, k + 1, i - 1);
            }
        },
        None => {
            lemma_names(body, marker_len, places, k + 1, i);
        },
    }
}

/// An upload gives no more files than there are parts between its markers.
pub proof fn law_no_more_files_than_parts(
    body: Seq<u8>,
    content_type: Seq<char>,
    boundary: Seq<char>,
)
    requires
        boundary_of(content_type) == Some(boundary),
        uploaded_files(body, content_type) is Ok,
    ensures
        uploaded_files(body, content_type)->Ok_0.len() < marker_places(
            body,
            marker_of(boundary),
            0,
        ).len(),
{
    let marker = marker_of(boundary);
    lemma_file_count(body, marker.len() as int, marker_places(body, marker, 0), 0);
}

/// The number of the files of the parts from one on.
proof fn lemma_file_count(body: Seq<u8>, marker_len: int, places: Seq<int>, k: int)
    requires
        0 <= k < places.len(),
    ensures
        files_from(body, marker_len, places, k).len() < places.len() - k,
    decreases places.len() - k,
{
    if k + 1 < places.len() {
        lemma_file_count(body, marker_len, places, k + 1);
    }
}

/// The link to an uploaded file leads to the path at which it is kept.
pub proof fn law_upload_link_leads_to_file(
    body: Seq<u8>,
    content_type: Seq<char>,
    i: int,
    count: int,
)
    requires
        uploaded_files(body, content_type) is Ok,
        0 <= i < uploaded_files(body, content_type)->Ok_0.len(),
    ensures
        ({
            let name = (uploaded_files(body, content_type)->Ok_0)[i].name;
            get_reply("/uploads/"@ + name, count) == GetView::File(upload_path(name))
        }),
{
    law_files_are_kept_below(body, content_type, i);
    lemma_uploads_reply((uploaded_files(body, content_type)->Ok_0)[i].name, count);
}

/// What is answered below the path of uploads.
proof fn lemma_uploads_reply(rel: Seq<char>, count: int)
    ensures
        get_reply("/uploads/"@ + rel, count) == if stays_below(rel) {
            GetView::File(upload_path(rel))
        } else {
            GetView::Page(page(StatusCode::NotFound, error_body(StatusCode::NotFound)))
        },
{
    reveal_strlit("/");
    reveal_strlit("/about");
    reveal_strlit("/upload");
    reveal_strlit("/uploads/");
    let path = "/uploads/"@ + rel;
    assert(path[1] == 'u' && path[7] == 's');
    assert(path.len() >= 9);
    assert("/about"@[1] == 'a');
    assert(path.subrange(0, 9) =~= "/uploads/"@);
    assert(path.skip(9) =~= rel);
}

/// Only files below the directory of uploads are shown: where a GET request is answered with
/// a file, its path leads into that directory and nowhere above it; and a path of uploads
/// that begins with a slash, climbs above the directory or ends by going up is answered with
/// the page for what is not found.
pub proof fn law_only_uploads_are_shown(path: Seq<char>, rel: Seq<char>, count: int)
    ensures
        match get_reply(path, count) {
            GetView::File(file) => file == "uploads/"@ + path.skip(9) && stays_below(
                path.skip(9),
            ),
            GetView::Page(_) => true,
        },
        !stays_below(rel) ==> get_reply("/uploads/"@ + rel, count) == GetView::Page(
            page(StatusCode::NotFound, error_body(StatusCode::NotFound)),
        ),
{
    lemma_uploads_reply(rel, count);
    if get_reply(path, count) is File {
        lemma_upload_path(path.skip(9));
    }
}

/// An upload with a body over the limit of its server is refused, and no file is kept.
pub proof fn law_large_upload_is_refused(
    config: Config,
    sessions: Map<Seq<char>, SessionView>,
    request: RequestView,
    server_idx: int,
    moment: Moment,
)
    requires
        request.method is POST,
        is_upload(request),
        request.body.len() > upload_limit(&config, server_idx),
    ensures
        handled(config, sessions, request, server_idx, moment) == HandledView::Respond(
            with_session(
                page(
                    StatusCode::PayloadTooLarge,
                    "<html><body><h1>413 Payload Too Large</h1></body></html>"@,
                ),
                chosen_id(sessions, request, moment),
            ),
        ),
{
}

/// A part of a form: the bytes of its head and of its data.
pub struct PartView {
    pub head: Seq<u8>,
    pub data: Seq<u8>,
}

/// A part between two markers, as a client writes it.
pub open spec fn part_bytes(part: PartView) -> Seq<u8> {
    crlf() + part.head + blank_line() + part.data + crlf()
}

/// A form as a client writes it: a marker before each part, and one at the end with what
/// comes after it.
pub open spec fn form_body(marker: Seq<u8>, parts: Seq<PartView>, tail: Seq<u8>) -> Seq<u8>
    decreases parts.len(),
{
    if parts.len() == 0 {
        marker + tail
    } else {
        marker + part_bytes(parts[0]) + form_body(marker, parts.skip(1), tail)
    }
}

/// The file that a part gives: its head names one, and something is left of the name under
/// which it is kept.
pub open spec fn named_file(part: PartView) -> Option<UploadView> {
    match name_in_head(part.head) {
        Some(name) => if safe_name(name).len() > 0 {
            Some(UploadView { name: safe_name(name), data: part.data })
        } else {
            None
        },
        None => None,
    }
}

/// The files among the parts of a form.
pub open spec fn named_files(parts: Seq<PartView>) -> Seq<UploadView>
    decreases parts.len(),
{
    if parts.len() == 0 {
        seq![]
    } else {
        let rest = named_files(parts.skip(1));
        match named_file(parts[0]) {
            Some(file) => seq![file] + rest,
            None => rest,
        }
    }
}

/// A part that can stand between the markers: its head ends at its first blank line, and the
/// marker is not among its bytes.
pub open spec fn is_part(marker: Seq<u8>, part: PartView) -> bool {
    &&& find(part.head + blank_line(), blank_line()) == Some(part.head.len() as int)
    &&& find(part_bytes(part), marker) is None
}

/// Where the markers of a form stand that begins at `start`.
spec fn offsets(marker: Seq<u8>, parts: Seq<PartView>, start: int) -> Seq<int>
    decreases parts.len(),
{
    if parts.len() == 0 {
        seq![start]
    } else {
        seq![start] + offsets(
            marker,
            parts.skip(1),
            start + marker.len() + part_bytes(parts[0]).len(),
        )
    }
}

/// No marker begins between the end of one marker and the next one.
proof fn lemma_no_marker_inside(
    body: Seq<u8>,
    marker: Seq<u8>,
    part: PartView,
    rest: Seq<u8>,
    from: int,
    j: int,
)
    requires
        !marker.contains(13u8),
        !marker.contains(10u8),
        marker.len() > 0,
        is_part(marker, part),
        0 <= from <= body.len(),
        body.skip(from) == part_bytes(part) + rest,
        from <= j < from + part_bytes(part).len(),
    ensures
        !occurs_at(body, marker, j),
{
    let bytes = part_bytes(part);
    let end = from + bytes.len();
    let s = body.skip(from);
    assert(s.len() >= bytes.len());
    assert(body.subrange(from, end) =~= bytes) by {
        assert forall|k: int| 0 <= k < bytes.len() implies body[from + k] == bytes[k] by {
            assert(s[k] == body[from + k]);
        }
    }
    lemma_find_from(bytes, marker, 0);
    if occurs_at(body, marker, j) {
        if j + marker.len() <= end {
            lemma_occurs_in_part(body, marker, from, end, j);
        } else {
            // The marker would reach over the line end at the end of the part.
            let k = end - 1 - j;
            assert(body.subrange(j, j + marker.len())[k] == body[end - 1]);
            assert(body[end - 1] == s[bytes.len() - 1]);
            assert(bytes[bytes.len() - 1] == crlf()[1]);
            assert(marker[k] == 10);
        }
    }
}

/// The markers of a form are found where they stand.
proof fn lemma_places(
    body: Seq<u8>,
    marker: Seq<u8>,
    parts: Seq<PartView>,
    tail: Seq<u8>,
    start: int,
    from: int,
)
    requires
        !marker.contains(13u8),
        !marker.contains(10u8),
        marker.len() > 0,
        forall|i: int| 0 <= i < parts.len() ==> is_part(marker, #[trigger] parts[i]),
        find(tail, marker) is None,
        0 <= from <= start <= body.len(),
        body.skip(start) == form_body(marker, parts, tail),
        forall|j: int| from <= j < start ==> !occurs_at(body, marker, j),
    ensures
        marker_places(body, marker, from) == offsets(marker, parts, start),
    decreases parts.len(),
{
    let s = body.skip(start);
    let n = marker.len() as int;
    let after = start + n;
    if parts.len() == 0 {
        assert(s =~= marker + tail);
        assert(s.subrange(0, n) =~= marker);
        assert(body.subrange(start, after) =~= s.subrange(0, n));
        lemma_find_is(body, marker, from, start);
        lemma_find_from(tail, marker, 0);
        assert(body.subrange(after, body.len() as int) =~= tail) by {
            assert forall|k: int| 0 <= k < tail.len() implies body[after + k] == tail[k] by {
                assert(s[n + k] == body[after + k]);
            }
        }
        assert forall|j: int| after <= j implies !occurs_at(body, marker, j) by {
            if occurs_at(body, marker, j) {
                lemma_occurs_in_part(body, marker, after, body.len() as int, j);
            }
        }
        lemma_find_none(body, marker, after);
        assert(marker_places(body, marker, after) =~= seq![]);
    } else {
        let part = parts[0];
        let bytes = part_bytes(part);
        let others = parts.skip(1);
        let rest = form_body(marker, others, tail);
        assert(s == marker + bytes + rest);
        assert(s.subrange(0, n) =~= marker);
        assert(body.subrange(start, after) =~= s.subrange(0, n));
        lemma_find_is(body, marker, from, start);
        assert(s.skip(n) =~= bytes + rest);
        assert(body.skip(after) =~= s.skip(n));
        let next = after + bytes.len();
        assert(body.skip(next) =~= rest) by {
            assert(s.skip(n + bytes.len()) =~= rest);
            assert(body.skip(next) =~= s.skip(n + bytes.len()));
        }
        assert forall|j: int| after <= j < next implies !occurs_at(body, marker, j) by {
            lemma_no_marker_inside(body, marker, part, rest, after, j);
        }
        assert forall|i: int| 0 <= i < others.len() implies is_part(
            marker,
            #[trigger] others[i],
        ) by {
            assert(others[i] == parts[i + 1]);
        }
        lemma_places(body, marker, others, tail, next, after);
        assert(marker_places(body, marker, from) =~= offsets(marker, parts, start));
    }
}

/// The part between two markers is the one that was written there.
proof fn lemma_part(body: Seq<u8>, part: PartView, rest: Seq<u8>, from: int)
    requires
        0 <= from <= body.len(),
        body.skip(from) == part_bytes(part) + rest,
    ensures
        part_between(body, from, from + part_bytes(part).len()) == part.head + blank_line()
            + part.data + crlf(),
        !is_closing(body, from),
{
    let bytes = part_bytes(part);
    let s = body.skip(from);
    let inner = part.head + blank_line() + part.data + crlf();
    assert(s.len() == body.len() - from && s.len() == bytes.len() + rest.len());
    assert(s.subrange(0, 2) =~= crlf());
    assert(body.subrange(from, from + 2) =~= s.subrange(0, 2));
    assert(crlf()[0] != seq![45u8, 45u8][0]);
    assert(body.subrange(from + 2, from + bytes.len()) =~= inner) by {
        assert forall|k: int| 0 <= k < inner.len() implies body[from + 2 + k] == inner[k] by {
            assert(s[2 + k] == body[from + 2 + k]);
            assert(bytes[2 + k] == inner[k]);
        }
    }
}

/// What a part says is what was written into it.
proof fn lemma_file_in_part(part: PartView)
    requires
        find(part.head + blank_line(), blank_line()) == Some(part.head.len() as int),
    ensures
        file_in_part(part.head + blank_line() + part.data + crlf()) == named_file(part),
{
    let short = part.head + blank_line();
    let rest = part.data + crlf();
    let inner = part.head + blank_line() + part.data + crlf();
    let n = part.head.len() as int;
    assert(inner =~= short + rest);
    lemma_find_from(short, blank_line(), 0);
    assert(inner.subrange(0, short.len() as int) =~= short);
    assert forall|j: int| 0 <= j <= n implies occurs_at(inner, blank_line(), j) == occurs_at(
        short,
        blank_line(),
        j,
    ) by {
        lemma_occurs_in_part(inner, blank_line(), 0, short.len() as int, j);
    }
    lemma_find_is(inner, blank_line(), 0, n);
    assert(inner.take(n) =~= part.head);
    assert(inner.skip(n + 4) =~= rest);
    assert(rest.subrange(rest.len() - 2, rest.len() as int) =~= crlf());
    assert(without_last_crlf(rest) =~= part.data);
}

/// The files that are found in a form are the ones that were written into it.
proof fn lemma_files(
    body: Seq<u8>,
    marker: Seq<u8>,
    parts: Seq<PartView>,
    tail: Seq<u8>,
    places: Seq<int>,
    k: int,
    start: int,
)
    requires
        marker.len() > 0,
        forall|i: int| 0 <= i < parts.len() ==> is_part(marker, #[trigger] parts[i]),
        0 <= start <= body.len(),
        body.skip(start) == form_body(marker, parts, tail),
        0 <= k <= places.len(),
        places.skip(k) == offsets(marker, parts, start),
    ensures
        files_from(body, marker.len() as int, places, k) == named_files(parts),
    decreases parts.len(),
{
    let n = marker.len() as int;
    let here = places.skip(k);
    if parts.len() == 0 {
        assert(here.len() == 1);
        assert(files_from(body, n, places, k) =~= seq![]);
    } else {
        let part = parts[0];
        let bytes = part_bytes(part);
        let others = parts.skip(1);
        let rest = form_body(marker, others, tail);
        let next = start + n + bytes.len();
        let s = body.skip(start);
        assert(s == marker + bytes + rest);
        let further = offsets(marker, others, next);
        assert(here == seq![start] + further);
        assert(further.len() > 0);
        assert(here.len() == places.len() - k);
        assert(places[k] == here[0] && here[0] == start);
        assert(further[0] == next);
        assert(places[k + 1] == here[1]);
        assert(s.skip(n) =~= bytes + rest);
        assert(body.skip(start + n) =~= s.skip(n));
        lemma_part(body, part, rest, start + n);
        assert(is_part(marker, part));
        lemma_file_in_part(part);
        assert(body.skip(next) =~= rest) by {
            assert(s.skip(n + bytes.len()) =~= rest);
            assert(body.skip(next) =~= s.skip(n + bytes.len()));
        }
        assert forall|i: int| 0 <= i < others.len() implies is_part(
            marker,
            #[trigger] others[i],
        ) by {
            assert(others[i] == parts[i + 1]);
        }
        assert(places.skip(k + 1) =~= further) by {
            assert(here.skip(1) =~= further);
            assert(places.skip(k + 1) =~= here.skip(1));
        }
        lemma_files(body, marker, others, tail, places, k + 1, next);
    }
}

/// The files of a form are read back as a client writes them: each part whose head names a
/// file gives one file, in their order, with exactly its data.
pub proof fn law_files_are_read_back(
    content_type: Seq<char>,
    boundary: Seq<char>,
    parts: Seq<PartView>,
    tail: Seq<u8>,
)
    requires
        boundary_of(content_type) == Some(boundary),
        is_line_text(boundary),
        parts.len() > 0,
        forall|i: int| 0 <= i < parts.len() ==> is_part(marker_of(boundary), #[trigger] parts[i]),
        find(tail, marker_of(boundary)) is None,
    ensures
        uploaded_files(form_body(marker_of(boundary), parts, tail), content_type) == Ok::<
            Seq<UploadView>,
            MultipartError,
        >(named_files(parts)),
{
    let marker = marker_of(boundary);
    let body = form_body(marker, parts, tail);
    reveal_strlit("--");
    let text = "--"@ + boundary;
    lemma_encode_concat("--"@, boundary);
    is_ascii_chars_encode_utf8("--"@);
    assert(marker.len() >= 2);
    assert forall|c: char| text.contains(c) implies c == '-' || boundary.contains(c) by {
        let k = choose|k: int| 0 <= k < text.len() && text[k] == c;
        if k >= 2 {
            assert(boundary[k - 2] == c);
        }
    }
    lemma_plain_byte_absent(text, 13u8);
    lemma_plain_byte_absent(text, 10u8);
    assert(body.skip(0) =~= body);
    lemma_places(body, marker, parts, tail, 0, 0);
    let places = marker_places(body, marker, 0);
    assert(places.skip(0) =~= places);
    lemma_files(body, marker, parts, tail, places, 0, 0);
    let next = part_bytes(parts[0]).len() + marker.len();
    assert(offsets(marker, parts.skip(1), next as int).len() > 0);
}

/// Text with quotes around it, or as it stands.
pub open spec fn maybe_quoted(s: Seq<char>, quoted: bool) -> Seq<char> {
    if quoted {
        seq!['"'] + s + seq!['"']
    } else {
        s
    }
}

/// The boundary that a client writes into the content type of a form is the one that is read
/// from it, with or without quotes.
pub proof fn law_boundary_is_read_back(boundary: Seq<char>, quoted: bool)
    requires
        boundary.len() > 0,
        !boundary.contains(';'),
        boundary[0] != '"',
        boundary.last() != '"',
        !is_white(boundary.last()),
        !begins_with(boundary, "boundary="@),
    ensures
        boundary_of("multipart/form-data; boundary="@ + maybe_quoted(boundary, quoted)) == Some(
            boundary,
        ),
{
    reveal_strlit("multipart/form-data; boundary=");
    reveal_strlit("multipart/form-data");
    reveal_strlit(" boundary=");
    reveal_strlit("boundary=");
    reveal_strlit(";");
    let kind = "multipart/form-data"@;
    let prefix = "boundary="@;
    let value = maybe_quoted(boundary, quoted);
    let setting = prefix + value;
    let second = " boundary="@ + value;
    let all = "multipart/form-data; boundary="@ + value;
    assert(all =~= kind + ";"@ + second);
    lemma_symbol_not_found(kind, ";"@);
    lemma_split_first(kind, ";"@, second);
    if second.contains(';') {
        let k = choose|k: int| 0 <= k < second.len() && second[k] == ';';
        let shift: int = if quoted {
            11
        } else {
            10
        };
        if shift <= k < shift + boundary.len() {
            assert(boundary[k - shift] == ';');
        }
    }
    lemma_symbol_not_found(second, ";"@);
    let pieces = split(all, ";"@);
    assert(pieces =~= seq![kind, second]);
    lemma_trim_keeps(kind, white());
    assert(kind.subrange(0, 9)[0] == 'm');
    assert(boundary_in_piece(kind) is None);
    assert(second =~= seq![' '] + setting);
    assert(setting.last() == value.last());
    lemma_trim_keeps(setting, white());
    lemma_trim_drops_first(' ', setting, white());
    assert(trim(second) == setting);
    assert(setting.subrange(0, 9) =~= prefix);
    assert(setting.skip(9) =~= value);
    if quoted && begins_with(value, prefix) {
        assert(value.subrange(0, 9)[0] == '"');
    }
    assert(strip_copies(value, prefix) == value);
    assert(strip_copies(setting, prefix) == value);
    if quoted {
        lemma_trim_drops_pair('"', boundary, only('"'));
    } else {
        lemma_trim_keeps(boundary, only('"'));
    }
    assert(boundary_in_piece(second) == Some(boundary));
    assert(pieces.skip(1) =~= seq![second]);
    reveal_with_fuel(boundary_in_pieces, 3);
}

/// An upload within the limit of its server is taken, and every file in it is kept.
pub proof fn law_upload_is_kept(
    config: Config,
    sessions: Map<Seq<char>, SessionView>,
    request: RequestView,
    server_idx: int,
    moment: Moment,
    boundary: Seq<char>,
    quoted: bool,
    parts: Seq<PartView>,
    tail: Seq<u8>,
)
    requires
        request.method is POST,
        request.headers.contains_key("content-type"@),
        request.headers["content-type"@] == "multipart/form-data; boundary="@ + maybe_quoted(
            boundary,
            quoted,
        ),
        request.body == form_body(marker_of(boundary), parts, tail),
        request.body.len() <= upload_limit(&config, server_idx),
        is_line_text(boundary),
        boundary.len() > 0,
        !boundary.contains(';'),
        boundary[0] != '"',
        boundary.last() != '"',
        !is_white(boundary.last()),
        !begins_with(boundary, "boundary="@),
        parts.len() > 0,
        forall|i: int| 0 <= i < parts.len() ==> is_part(marker_of(boundary), #[trigger] parts[i]),
        find(tail, marker_of(boundary)) is None,
    ensures
        handled(config, sessions, request, server_idx, moment) == (HandledView::Save {
            session_id: chosen_id(sessions, request, moment),
            files: named_files(parts),
        }),
{
    let content_type = request.headers["content-type"@];
    law_boundary_is_read_back(boundary, quoted);
    law_files_are_read_back(content_type, boundary, parts, tail);
    reveal_strlit("multipart/form-data");
    reveal_strlit("multipart/form-data; boundary=");
    assert(content_type.subrange(0, 19) =~= "multipart/form-data"@);
}

/// The line by which a client names a file in the head of a part.
pub open spec fn file_line(lead: Seq<char>, name: Seq<char>, rest: Seq<char>) -> Seq<char> {
    lead + "filename="@ + maybe_quoted(name, true) + rest
}

/// A line that begins like one that describes a part is known as one, whatever follows.
pub proof fn law_disposition_is_known(rest: Seq<char>)
    ensures
        begins_with(lowercase("Content-Disposition:"@ + rest), "content-disposition:"@),
{
    reveal_strlit("Content-Disposition:");
    reveal_strlit("content-disposition:");
    let start = "Content-Disposition:"@;
    let line = start + rest;
    lemma_ascii_start(start, rest);
    if !is_ascii_chars(line) {
        let n = ascii_start(line);
        assert(ascii_lowercase(line.take(n)).subrange(0, 20) =~= "content-disposition:"@);
        assert(lowercase(line).subrange(0, 20) =~= ascii_lowercase(line.take(n)).subrange(0, 20));
    } else {
        assert(lowercase(line).subrange(0, 20) =~= "content-disposition:"@);
    }
}

/// The ASCII characters at the start of a text reach over any start that has no others.
proof fn lemma_ascii_start(start: Seq<char>, rest: Seq<char>)
    requires
        is_ascii_chars(start),
    ensures
        start.len() <= ascii_start(start + rest) <= start.len() + rest.len(),
    decreases start.len() + rest.len(),
{
    let s = start + rest;
    if start.len() > 0 {
        assert(s[0] == start[0]);
        assert(s.skip(1) =~= start.skip(1) + rest);
        lemma_ascii_start(start.skip(1), rest);
    } else if rest.len() > 0 && rest[0] <= '\u{7f}' {
        assert(s[0] == rest[0]);
        assert(s.skip(1) =~= start + rest.skip(1));
        lemma_ascii_start(start, rest.skip(1));
    } else {
        assert(s =~= rest);
    }
}

/// The first quote that ends a value, where no quote stands before it.
proof fn lemma_closing_quote(name: Seq<char>, rest: Seq<char>, from: int)
    requires
        !name.contains('"'),
        ends_setting(rest),
        1 <= from <= name.len() + 1,
    ensures
        closing_quote(maybe_quoted(name, true) + rest, from) == Some(name.len() as int + 1),
    decreases name.len() + 1 - from,
{
    let value = maybe_quoted(name, true) + rest;
    if from <= name.len() {
        assert(value[from] == name[from - 1]);
        lemma_closing_quote(name, rest, from + 1);
    } else {
        assert(value.skip(from + 1) =~= rest);
    }
}

/// The name in a line that names a file.
proof fn lemma_name_in_line(lead: Seq<char>, name: Seq<char>, rest: Seq<char>)
    requires
        find(lead + "filename="@, "filename="@) == Some(lead.len() as int),
        begins_with(lowercase(file_line(lead, name, rest)), "content-disposition:"@),
        name.len() > 0,
        !name.contains('"'),
        name[0] != ' ',
        name.last() != ' ',
        ends_setting(rest),
    ensures
        name_in_line(file_line(lead, name, rest)) == Some(name),
{
    reveal_strlit("filename=");
    let key = "filename="@;
    let short = lead + key;
    let quoted = maybe_quoted(name, true);
    let line = file_line(lead, name, rest);
    let n = lead.len() as int;
    lemma_find_from(short, key, 0);
    assert(line.subrange(0, short.len() as int) =~= short);
    assert forall|j: int| 0 <= j <= n implies occurs_at(line, key, j) == occurs_at(
        short,
        key,
        j,
    ) by {
        lemma_occurs_in_part(line, key, 0, short.len() as int, j);
    }
    lemma_find_is(line, key, 0, n);
    assert(line.skip(n + 9) =~= quoted + rest);
    assert((quoted + rest)[0] == '"');
    assert(trim_start(quoted + rest, white()) == quoted + rest);
    let kept = lemma_trim_end_keeps_end(quoted, rest);
    let value = trim(line.skip(n + 9));
    assert(value == quoted + kept);
    lemma_closing_quote(name, kept, 1);
    assert(value[0] == '"');
    let opened = seq!['"'] + name;
    assert(value.take(name.len() as int + 1) =~= opened);
    assert(name.contains(name[0]) && name.contains(name.last()));
    lemma_trim_drops_first('"', name, only('"'));
    lemma_trim_keeps(name, only('"'));
    assert(trim_char(opened, '"') == name);
    lemma_trim_keeps(name, only(' '));
}

/// What is left of the end of a line when white space is trimmed off ends a value where the
/// whole end does.
proof fn lemma_trim_end_keeps_end(quoted: Seq<char>, rest: Seq<char>) -> (kept: Seq<char>)
    requires
        quoted.len() > 0,
        !is_white(quoted.last()),
        ends_setting(rest),
    ensures
        trim_end(quoted + rest, white()) == quoted + kept,
        ends_setting(kept),
    decreases rest.len(),
{
    let all = quoted + rest;
    if rest.len() > 0 && is_white(rest.last()) {
        let shorter = rest.drop_last();
        assert(all.last() == rest.last());
        assert(all.drop_last() =~= quoted + shorter);
        assert(shorter.push(rest.last()) =~= rest);
        lemma_trim_start_of_start(shorter, rest.last());
        lemma_trim_end_keeps_end(quoted, shorter)
    } else {
        assert(rest.len() == 0 ==> all =~= quoted);
        rest
    }
}

/// White space at the end of a text does not decide whether a value ends before the text.
proof fn lemma_trim_start_of_start(s: Seq<char>, c: char)
    requires
        is_white(c),
        ends_setting(s.push(c)),
    ensures
        ends_setting(s),
    decreases s.len(),
{
    let longer = s.push(c);
    if s.len() > 0 {
        assert(longer[0] == s[0]);
        if is_white(s[0]) {
            assert(longer.skip(1) =~= s.skip(1).push(c));
            lemma_trim_start_of_start(s.skip(1), c);
        }
    }
}

/// The name that the last line with one gives.
proof fn lemma_name_in_lines(lines: Seq<Seq<char>>, i: int)
    requires
        0 <= i < lines.len(),
        name_in_line(lines[i]) is Some,
        forall|j: int| i < j < lines.len() ==> name_in_line(#[trigger] lines[j]) is None,
    ensures
        name_in_lines(lines) == name_in_line(lines[i]),
    decreases lines.len(),
{
    let before = lines.drop_last();
    assert(lines.last() == lines[lines.len() - 1]);
    if i < before.len() {
        assert forall|j: int| i < j < before.len() implies name_in_line(
            #[trigger] before[j],
        ) is None by {
            assert(before[j] == lines[j]);
        }
        lemma_name_in_lines(before, i);
    }
}

/// The file name that a client writes between quotes into the head of a part, on any of its
/// lines and with or without further settings on that line, is the one that is read from it.
pub proof fn law_file_name_is_read_back(
    lines: Seq<Seq<char>>,
    i: int,
    lead: Seq<char>,
    name: Seq<char>,
    rest: Seq<char>,
)
    requires
        0 <= i < lines.len(),
        lines[i] == file_line(lead, name, rest),
        forall|j: int| 0 <= j < lines.len() ==> is_line_text(#[trigger] lines[j]),
        forall|j: int| i < j < lines.len() ==> name_in_line(#[trigger] lines[j]) is None,
        find(lead + "filename="@, "filename="@) == Some(lead.len() as int),
        begins_with(lead, "Content-Disposition:"@),
        name.len() > 0,
        !name.contains('"'),
        name[0] != ' ',
        name.last() != ' ',
        ends_setting(rest),
    ensures
        name_in_head(encode_utf8(joined_by(lines, "\r\n"@))) == Some(name),
{
    reveal_strlit("\r\n");
    let text = joined_by(lines, "\r\n"@);
    encode_utf8_valid_utf8(text);
    encode_utf8_decode_utf8(text);
    assert forall|j: int| 0 <= j < lines.len() implies find(
        #[trigger] lines[j],
        "\r\n"@,
    ) is None by {
        lemma_symbol_not_found(lines[j], "\r\n"@);
    }
    lemma_split_joined(lines, "\r\n"@);
    reveal_strlit("Content-Disposition:");
    let start = "Content-Disposition:"@;
    let line = file_line(lead, name, rest);
    assert(lead =~= lead.subrange(0, 20) + lead.skip(20));
    assert(line =~= start + line.skip(20));
    law_disposition_is_known(line.skip(20));
    lemma_name_in_line(lead, name, rest);
    lemma_name_in_lines(lines, i);
}

/// The markers in the start of a body are the ones of the body that lie in it.
proof fn lemma_places_in_start(body: Seq<u8>, marker: Seq<u8>, end: int, from: int) -> (n: int)
    requires
        marker.len() > 0,
        0 <= from,
        0 <= end <= body.len(),
    ensures
        ({
            let all = marker_places(body, marker, from);
            &&& 0 <= n <= all.len()
            &&& marker_places(body.take(end), marker, from) == all.take(n)
            &&& forall|i: int| 0 <= i < n ==> (#[trigger] all[i]) + marker.len() <= end
            &&& n < all.len() ==> all[n] + marker.len() > end
        }),
    decreases body.len() - from,
{
    let start = body.take(end);
    let all = marker_places(body, marker, from);
    lemma_find_from(body, marker, from);
    lemma_find_from(start, marker, from);
    assert forall|j: int| 0 <= j && j + marker.len() <= end implies occurs_at(body, marker, j)
        == occurs_at(start, marker, j) by {
        lemma_occurs_in_part(body, marker, 0, end, j);
        assert(body.subrange(0, end) =~= start);
    }
    match find_from(body, marker, from) {
        None => {
            assert(find_from(start, marker, from) is None);
            assert(all.take(0) =~= marker_places(start, marker, from));
            0
        },
        Some(i) => {
            let rest = marker_places(body, marker, i + marker.len());
            assert(all == seq![i] + rest);
            if i + marker.len() <= end {
                lemma_find_is(start, marker, from, i);
                let n = lemma_places_in_start(body, marker, end, i + marker.len());
                assert(all.take(n + 1) =~= seq![i] + rest.take(n));
                assert forall|k: int| 0 <= k < n + 1 implies (#[trigger] all[k]) + marker.len()
                    <= end by {
                    if k > 0 {
                        assert(all[k] == rest[k - 1]);
                    }
                }
                n + 1
            } else {
                assert(find_from(start, marker, from) is None);
                assert(all.take(0) =~= marker_places(start, marker, from));
                0
            }
        },
    }
}

/// Markers stand one after the other, without overlap, and not before the start of the search.
proof fn lemma_places_apart(body: Seq<u8>, marker: Seq<u8>, from: int, i: int, j: int)
    requires
        marker.len() > 0,
        0 <= from,
        0 <= i <= j < marker_places(body, marker, from).len(),
    ensures
        from <= marker_places(body, marker, from)[i],
        i < j ==> marker_places(body, marker, from)[i] + marker.len() <= marker_places(
            body,
            marker,
            from,
        )[j],
        marker_places(body, marker, from)[j] + marker.len() <= body.len(),
    decreases j,
{
    lemma_find_from(body, marker, from);
    let all = marker_places(body, marker, from);
    let first = find_from(body, marker, from)->0;
    let rest = marker_places(body, marker, first + marker.len());
    assert(all == seq![first] + rest);
    if j > 0 {
        lemma_places_apart(
            body,
            marker,
            first + marker.len(),
            if i > 0 {
                i - 1
            } else {
                j - 1
            },
            j - 1,
        );
    }
}

/// The files of a form and of its start are the same up to a marker that closes both.
proof fn lemma_files_in_start(
    body: Seq<u8>,
    marker: Seq<u8>,
    end: int,
    n: int,
    k: int,
    j: int,
)
    requires
        marker.len() > 0,
        marker[0] == 45,
        0 <= j <= k < marker_places(body, marker, 0).len(),
        k < n <= marker_places(body, marker, 0).len(),
        is_closing(body, marker_places(body, marker, 0)[k] + marker.len()),
        end == marker_places(body, marker, 0)[k] + marker.len() + 2,
    ensures
        files_from(
            body.take(end),
            marker.len() as int,
            marker_places(body, marker, 0).take(n),
            j,
        ) == files_from(body, marker.len() as int, marker_places(body, marker, 0), j),
    decreases k - j,
{
    let start = body.take(end);
    let all = marker_places(body, marker, 0);
    let some = all.take(n);
    let m = marker.len() as int;
    let hyphens = seq![45u8, 45u8];
    assert(body.subrange(0, end) =~= start);
    lemma_places_apart(body, marker, 0, j, k);
    lemma_occurs_in_part(body, hyphens, 0, end, all[j] + m);
    assert(some[j] == all[j]);
    if j < k {
        lemma_places_apart(body, marker, 0, j, j + 1);
        lemma_places_apart(body, marker, 0, j + 1, k);
        lemma_files_in_start(body, marker, end, n, k, j + 1);
        assert(some[j + 1] == all[j + 1]);
        lemma_occurs_in_part(body, crlf(), 0, end, all[j] + m);
        let from = all[j] + m;
        let to = all[j + 1];
        assert(start.subrange(from, to) =~= body.subrange(from, to));
        lemma_part_bounds(body, marker, all, 0, j);
        if occurs_at(body, crlf(), from) {
            assert(start.subrange(from + 2, to) =~= body.subrange(from + 2, to));
        }
        assert(part_between(start, from, to) == part_between(body, from, to));
    }
}

/// Nothing counts after the marker that closes a form: cutting the body off right after the
/// two hyphens leaves the files as they are, where there is a part before.
pub proof fn law_nothing_counts_after_closing(
    body: Seq<u8>,
    content_type: Seq<char>,
    boundary: Seq<char>,
    k: int,
)
    requires
        boundary_of(content_type) == Some(boundary),
        0 < k < marker_places(body, marker_of(boundary), 0).len(),
        is_closing(
            body,
            marker_places(body, marker_of(boundary), 0)[k] + marker_of(boundary).len(),
        ),
    ensures
        uploaded_files(
            body.take(
                marker_places(body, marker_of(boundary), 0)[k] + marker_of(boundary).len() + 2,
            ),
            content_type,
        ) == uploaded_files(body, content_type),
{
    let marker = marker_of(boundary);
    let all = marker_places(body, marker, 0);
    let end = all[k] + marker.len() + 2;
    lemma_marker(boundary);
    let n = lemma_places_in_start(body, marker, end, 0);
    lemma_places_apart(body, marker, 0, k, k);
    if n <= k {
        if n < k {
            lemma_places_apart(body, marker, 0, n, k);
        }
        assert(all[n] + marker.len() <= end);
    }
    lemma_files_in_start(body, marker, end, n, k, 0);
}

/// A name that can be kept as it is: not empty, without a slash at its start and without two
/// dots in a row.
pub open spec fn is_plain_name(name: Seq<char>) -> bool {
    &&& name.len() > 0
    &&& name[0] != '/'
    &&& forall|j: int| 0 <= j < name.len() - 1 ==> !((#[trigger] name[j]) == '.' && name[j + 1] == '.')
}

/// A plain name is kept as it is. Of another name the slashes at the start are dropped, and an
/// underscore stands in the place of each two dots; nothing else changes.
pub proof fn law_plain_names_are_kept(name: Seq<char>, pieces: Seq<Seq<char>>)
    ensures
        is_plain_name(name) ==> safe_name(name) == name,
        safe_name(seq!['/'] + name) == safe_name(name),
        pieces.len() > 0 && split(name, ".."@) == pieces && joined_by(pieces, "_"@).len() > 0
            && joined_by(pieces, "_"@)[0] != '/' ==> safe_name(name) == joined_by(pieces, "_"@),
{
    reveal_strlit("..");
    reveal_strlit("_");
    let dots = ".."@;
    if is_plain_name(name) {
        assert forall|j: int| 0 <= j implies !occurs_at(name, dots, j) by {
            if occurs_at(name, dots, j) {
                let there = name.subrange(j, j + 2);
                assert(there[0] == name[j] && there[1] == name[j + 1]);
            }
        }
        lemma_find_none(name, dots, 0);
    }
    law_replacing_joins_pieces(name, dots, "_"@);
    lemma_slash_before_replaced(name);
    let whole = replace(name, dots, "_"@);
    lemma_trim_drops_first('/', whole, only('/'));
}

/// A slash before a name stays before it when dots are replaced.
proof fn lemma_slash_before_replaced(name: Seq<char>)
    ensures
        replace(seq!['/'] + name, ".."@, "_"@) == seq!['/'] + replace(name, ".."@, "_"@),
{
    reveal_strlit("..");
    let dots = ".."@;
    let longer = seq!['/'] + name;
    lemma_find_from(name, dots, 0);
    lemma_find_from(longer, dots, 0);
    assert forall|j: int| 0 <= j implies occurs_at(longer, dots, j) == (j > 0 && occurs_at(
        name,
        dots,
        j - 1,
    )) by {
        if j > 0 && j + 2 <= longer.len() {
            lemma_occurs_in_part(longer, dots, 1, longer.len() as int, j);
            assert(longer.subrange(1, longer.len() as int) =~= name);
        } else if j == 0 && longer.len() >= 2 {
            assert(longer.subrange(0, 2)[0] == '/');
        }
    }
    match find(name, dots) {
        None => {
            assert forall|j: int| 0 <= j implies !occurs_at(longer, dots, j) by {
                if j > 0 {
                    assert(!occurs_at(name, dots, j - 1));
                }
            }
            lemma_find_none(longer, dots, 0);
        },
        Some(i) => {
            assert forall|j: int| 0 <= j < i + 1 implies !occurs_at(longer, dots, j) by {
                if j > 0 {
                    assert(!occurs_at(name, dots, j - 1));
                }
            }
            assert(occurs_at(longer, dots, i + 1));
            lemma_find_is(longer, dots, 0, i + 1);
            assert(longer.subrange(0, i + 1) =~= seq!['/'] + name.subrange(0, i));
            assert(longer.skip(i + 3) =~= name.skip(i + 2));
            assert(replace(longer, dots, "_"@) =~= seq!['/'] + replace(name, dots, "_"@));
        },
    }
}

/// An upload whose parts all name files plainly gives exactly these files, in their order,
/// each under the name that was sent and with the data that was sent.
pub proof fn law_plainly_named_files_are_kept_as_sent(
    content_type: Seq<char>,
    boundary: Seq<char>,
    parts: Seq<PartView>,
    names: Seq<Seq<char>>,
    tail: Seq<u8>,
)
    requires
        boundary_of(content_type) == Some(boundary),
        is_line_text(boundary),
        parts.len() > 0,
        names.len() == parts.len(),
        forall|i: int| 0 <= i < parts.len() ==> is_part(marker_of(boundary), #[trigger] parts[i]),
        forall|i: int|
            0 <= i < parts.len() ==> name_in_head((#[trigger] parts[i]).head) == Some(names[i]),
        forall|i: int| 0 <= i < names.len() ==> is_plain_name(#[trigger] names[i]),
        find(tail, marker_of(boundary)) is None,
    ensures
        uploaded_files(form_body(marker_of(boundary), parts, tail), content_type) == Ok::<
            Seq<UploadView>,
            MultipartError,
        >(Seq::new(parts.len(), |i: int| UploadView { name: names[i], data: parts[i].data })),
{
    law_files_are_read_back(content_type, boundary, parts, tail);
    lemma_plainly_named(parts, names);
}

/// Plainly named parts give their files.
proof fn lemma_plainly_named(parts: Seq<PartView>, names: Seq<Seq<char>>)
    requires
        names.len() == parts.len(),
        forall|i: int|
            0 <= i < parts.len() ==> name_in_head((#[trigger] parts[i]).head) == Some(names[i]),
        forall|i: int| 0 <= i < names.len() ==> is_plain_name(#[trigger] names[i]),
    ensures
        named_files(parts) == Seq::new(
            parts.len(),
            |i: int| UploadView { name: names[i], data: parts[i].data },
        ),
    decreases parts.len(),
{
    let all = Seq::new(parts.len(), |i: int| UploadView { name: names[i], data: parts[i].data });
    if parts.len() == 0 {
        assert(all =~= seq![]);
    } else {
        let others = parts.skip(1);
        let more = names.skip(1);
        assert forall|i: int| 0 <= i < others.len() implies name_in_head(
            (#[trigger] others[i]).head,
        ) == Some(more[i]) by {
            assert(others[i] == parts[i + 1]);
        }
        assert forall|i: int| 0 <= i < more.len() implies is_plain_name(#[trigger] more[i]) by {
            assert(more[i] == names[i + 1]);
        }
        lemma_plainly_named(others, more);
        assert(is_plain_name(names[0]));
        assert(name_in_head(parts[0].head) == Some(names[0]));
        law_plain_names_are_kept(names[0], seq![]);
        assert(named_files(parts) =~= all);
    }
}

/// A line that does not describe a part, or has no setting for a file name, names no file; and
/// a name may stand without quotes.
pub proof fn law_other_lines_name_no_file(line: Seq<char>, lead: Seq<char>, name: Seq<char>)
    ensures
        !begins_with(lowercase(line), "content-disposition:"@) ==> name_in_line(line) is None,
        find(line, "filename="@) is None ==> name_in_line(line) is None,
        find(lead + "filename="@, "filename="@) == Some(lead.len() as int) && begins_with(
            lead,
            "Content-Disposition:"@,
        ) && name.len() > 0 && !is_white(name[0]) && !is_white(name.last()) && name[0] != '"'
            && name.last() != '"' ==> name_in_line(lead + "filename="@ + name) == Some(name),
{
    if find(lead + "filename="@, "filename="@) == Some(lead.len() as int) && begins_with(
        lead,
        "Content-Disposition:"@,
    ) && name.len() > 0 && !is_white(name[0]) && !is_white(name.last()) && name[0] != '"'
        && name.last() != '"' {
        reveal_strlit("filename=");
        reveal_strlit("Content-Disposition:");
        let key = "filename="@;
        let short = lead + key;
        let whole = lead + key + name;
        let n = lead.len() as int;
        lemma_find_from(short, key, 0);
        assert(whole.subrange(0, short.len() as int) =~= short);
        assert forall|j: int| 0 <= j <= n implies occurs_at(whole, key, j) == occurs_at(
            short,
            key,
            j,
        ) by {
            lemma_occurs_in_part(whole, key, 0, short.len() as int, j);
        }
        lemma_find_is(whole, key, 0, n);
        assert(whole.skip(n + 9) =~= name);
        assert(lead =~= lead.subrange(0, 20) + lead.skip(20));
        assert(whole =~= "Content-Disposition:"@ + whole.skip(20));
        law_disposition_is_known(whole.skip(20));
        lemma_trim_keeps(name, white());
        lemma_trim_keeps(name, only('"'));
        lemma_trim_keeps(name, only(' '));
    }
}

/// The files of an upload can be told exactly where the content type names a boundary and the
/// body has at least two markers; which of the two is missing is told otherwise.
pub proof fn law_uploads_that_cannot_be_read(body: Seq<u8>, content_type: Seq<char>)
    ensures
        boundary_of(content_type) is None <==> uploaded_files(body, content_type) == Err::<
            Seq<UploadView>,
            MultipartError,
        >(MultipartError::NoBoundary),
        boundary_of(content_type) is Some ==> (uploaded_files(body, content_type) == Err::<
            Seq<UploadView>,
            MultipartError,
        >(MultipartError::NoParts) <==> marker_places(
            body,
            marker_of(boundary_of(content_type)->0),
            0,
        ).len() < 2),
        boundary_of(content_type) is Some && marker_places(
            body,
            marker_of(boundary_of(content_type)->0),
            0,
        ).len() >= 2 ==> uploaded_files(body, content_type) is Ok,
{
}

/// The boundary is what the first setting of that name gives, and there is none where no
/// setting of the content type has that name.
pub proof fn law_first_boundary_counts(pieces: Seq<Seq<char>>, i: int, boundary: Seq<char>)
    requires
        pieces.len() > 0,
        forall|j: int| 0 <= j < pieces.len() ==> !(#[trigger] pieces[j]).contains(';'),
        0 <= i <= pieces.len(),
        forall|j: int|
            0 <= j < i ==> !begins_with(trim(#[trigger] pieces[j]), "boundary="@),
        i < pieces.len() ==> trim(pieces[i]) == "boundary="@ + boundary,
        !begins_with(boundary, "boundary="@),
        boundary.len() > 0 ==> boundary[0] != '"' && boundary.last() != '"',
    ensures
        boundary_of(joined_by(pieces, ";"@)) == if i < pieces.len() {
            Some(boundary)
        } else {
            None
        },
{
    reveal_strlit(";");
    assert forall|j: int| 0 <= j < pieces.len() implies find(#[trigger] pieces[j], ";"@) is None by {
        lemma_symbol_not_found(pieces[j], ";"@);
    }
    lemma_split_joined(pieces, ";"@);
    lemma_boundary_pieces(pieces, i, boundary);
}

/// The first piece with a boundary counts.
proof fn lemma_boundary_pieces(pieces: Seq<Seq<char>>, i: int, boundary: Seq<char>)
    requires
        0 <= i <= pieces.len(),
        forall|j: int|
            0 <= j < i ==> !begins_with(trim(#[trigger] pieces[j]), "boundary="@),
        i < pieces.len() ==> trim(pieces[i]) == "boundary="@ + boundary,
        !begins_with(boundary, "boundary="@),
        boundary.len() > 0 ==> boundary[0] != '"' && boundary.last() != '"',
    ensures
        boundary_in_pieces(pieces) == if i < pieces.len() {
            Some(boundary)
        } else {
            None
        },
    decreases pieces.len(),
{
    if pieces.len() > 0 {
        if i == 0 {
            reveal_strlit("boundary=");
            let prefix = "boundary="@;
            law_begins_with(prefix + boundary, prefix, boundary);
            law_copies_are_stripped(boundary, prefix);
            lemma_trim_keeps(boundary, only('"'));
        } else {
            let rest = pieces.skip(1);
            assert(!begins_with(trim(pieces[0]), "boundary="@));
            assert forall|j: int| 0 <= j < i - 1 implies !begins_with(
                trim(#[trigger] rest[j]),
                "boundary="@,
            ) by {
                assert(rest[j] == pieces[j + 1]);
            }
            assert(i < pieces.len() ==> rest[i - 1] == pieces[i]);
            lemma_boundary_pieces(rest, i - 1, boundary);
        }
    }
}

/// A marker is two hyphens and the boundary; all markers of a body are found, from the left
/// and without overlap; and one closes the form where two hyphens stand directly after it.
pub proof fn law_markers_are_all_found(body: Seq<u8>, boundary: Seq<char>, p: int, i: int)
    ensures
        marker_of(boundary) == seq![45u8, 45u8] + encode_utf8(boundary),
        ({
            let marker = marker_of(boundary);
            let places = marker_places(body, marker, 0);
            &&& 0 <= i < places.len() ==> 0 <= places[i] && places[i] + marker.len() <= body.len()
                && body.subrange(places[i], places[i] + marker.len()) == marker
            &&& 0 <= i < places.len() - 1 ==> places[i] + marker.len() <= places[i + 1]
            &&& 0 <= p && p + marker.len() <= body.len() && body.subrange(p, p + marker.len())
                == marker ==> exists|k: int|
                0 <= k < places.len() && (#[trigger] places[k]) <= p < places[k] + marker.len()
        }),
        is_closing(body, p) <==> 0 <= p && p + 2 <= body.len() && body[p] == 45 && body[p + 1]
            == 45,
{
    reveal_strlit("--");
    let marker = marker_of(boundary);
    let places = marker_places(body, marker, 0);
    lemma_encode_concat("--"@, boundary);
    is_ascii_chars_encode_utf8("--"@);
    assert(encode_utf8("--"@) =~= seq![45u8, 45u8]);
    lemma_marker(boundary);
    if 0 <= i < places.len() {
        lemma_part_bounds(body, marker, places, 0, i);
    }
    if 0 <= p && p + marker.len() <= body.len() && body.subrange(p, p + marker.len()) == marker {
        lemma_marker_found(body, marker, 0, p);
    }
    if 0 <= p && p + 2 <= body.len() {
        assert(body.subrange(p, p + 2) =~= seq![body[p], body[p + 1]]);
        if is_closing(body, p) {
            assert(seq![body[p], body[p + 1]][0] == 45u8 && seq![body[p], body[p + 1]][1] == 45u8);
        }
    }
}

/// Where a marker stands, one is found that it is or overlaps.
proof fn lemma_marker_found(body: Seq<u8>, marker: Seq<u8>, from: int, p: int)
    requires
        marker.len() > 0,
        0 <= from <= p,
        occurs_at(body, marker, p),
    ensures
        exists|k: int|
            0 <= k < marker_places(body, marker, from).len() && (#[trigger] marker_places(
                body,
                marker,
                from,
            )[k]) <= p < marker_places(body, marker, from)[k] + marker.len(),
    decreases p - from,
{
    lemma_find_from(body, marker, from);
    let all = marker_places(body, marker, from);
    let first = find_from(body, marker, from)->0;
    let rest = marker_places(body, marker, first + marker.len());
    assert(all == seq![first] + rest);
    if p < first + marker.len() {
        assert(all[0] <= p);
    } else {
        lemma_marker_found(body, marker, first + marker.len(), p);
        let k = choose|k: int|
            0 <= k < rest.len() && (#[trigger] rest[k]) <= p < rest[k] + marker.len();
        assert(all[k + 1] == rest[k]);
    }
}

/// A part is what stands between two markers, without the line end after the first; its data
/// is what follows its first blank line, without one line end at the end. A part without a
/// blank line, or whose head names no file, gives none.
pub proof fn law_parts_are_read(
    body: Seq<u8>,
    start: int,
    end: int,
    head: Seq<u8>,
    data: Seq<u8>,
    name: Seq<char>,
    part: Seq<u8>,
)
    requires
        0 <= start <= end <= body.len(),
        find(head + blank_line(), blank_line()) == Some(head.len() as int),
        is_plain_name(name),
    ensures
        start + 2 <= end && body[start] == 13 && body[start + 1] == 10 ==> part_between(
            body,
            start,
            end,
        ) == body.subrange(start + 2, end),
        start + 2 <= body.len() && !(body[start] == 13 && body[start + 1] == 10) ==> part_between(
            body,
            start,
            end,
        ) == body.subrange(start, end),
        find(part, blank_line()) is None ==> file_in_part(part) is None,
        name_in_head(head) is None ==> file_in_part(head + blank_line() + data) is None,
        name_in_head(head) == Some(name) ==> file_in_part(head + blank_line() + data + crlf())
            == Some(UploadView { name, data }),
        name_in_head(head) == Some(name) && !(data.len() >= 2 && data[data.len() - 2] == 13
            && data[data.len() - 1] == 10) ==> file_in_part(head + blank_line() + data) == Some(
            UploadView { name, data },
        ),
{
    let short = head + blank_line();
    let n = head.len() as int;
    if start + 2 <= body.len() {
        assert(body.subrange(start, start + 2) =~= seq![body[start], body[start + 1]]);
        if occurs_at(body, crlf(), start) {
            assert(seq![body[start], body[start + 1]][0] == 13u8);
            assert(seq![body[start], body[start + 1]][1] == 10u8);
        }
    }
    law_plain_names_are_kept(name, seq![]);
    lemma_file_in_part(PartView { head, data });
    let bare = head + blank_line() + data;
    lemma_find_from(short, blank_line(), 0);
    assert(bare.subrange(0, short.len() as int) =~= short);
    assert forall|j: int| 0 <= j <= n implies occurs_at(bare, blank_line(), j) == occurs_at(
        short,
        blank_line(),
        j,
    ) by {
        lemma_occurs_in_part(bare, blank_line(), 0, short.len() as int, j);
    }
    lemma_find_is(bare, blank_line(), 0, n);
    assert(bare.take(n) =~= head);
    assert(bare.skip(n + 4) =~= data);
    if data.len() >= 2 {
        let end2 = data.subrange(data.len() - 2, data.len() as int);
        assert(end2 =~= seq![data[data.len() - 2], data[data.len() - 1]]);
        if occurs_at(data, crlf(), data.len() - 2) {
            assert(end2[0] == 13u8 && end2[1] == 10u8);
        }
    }
}

/// A value ends where nothing follows or a semicolon does, after white space or not, and
/// nowhere else; and quotes inside a quoted name that do not end it belong to the name.
pub proof fn law_names_end_at_their_closing_quote(
    gap: Seq<char>,
    rest: Seq<char>,
    name: Seq<char>,
)
    ensures
        is_all(gap, |c: char| is_white(c)) && (rest.len() > 0 ==> !is_white(rest[0]))
            ==> ends_setting(gap + rest) == (rest.len() == 0 || rest[0] == ';'),
        name.len() > 0 && name[0] != '"' && name.last() != '"' && (forall|j: int|
            0 <= j < name.len() - 1 && (#[trigger] name[j]) == '"' ==> !is_white(name[j + 1])
                && name[j + 1] != ';') ==> unquoted(maybe_quoted(name, true)) == name,
{
    if is_all(gap, |c: char| is_white(c)) && (rest.len() > 0 ==> !is_white(rest[0])) {
        assert(is_all(gap, white()));
        lemma_trim_start_takes_off(gap, rest, white());
    }
    if name.len() > 0 && name[0] != '"' && name.last() != '"' && (forall|j: int|
        0 <= j < name.len() - 1 && (#[trigger] name[j]) == '"' ==> !is_white(name[j + 1])
            && name[j + 1] != ';') {
        let value = maybe_quoted(name, true);
        lemma_inner_quotes(name, 1);
        let opened = seq!['"'] + name;
        assert(value.take(name.len() as int + 1) =~= opened);
        lemma_trim_drops_first('"', name, only('"'));
        lemma_trim_keeps(name, only('"'));
    }
}

/// Quotes inside a name do not close it.
proof fn lemma_inner_quotes(name: Seq<char>, from: int)
    requires
        name.len() > 0,
        name.last() != '"',
        forall|j: int|
            0 <= j < name.len() - 1 && (#[trigger] name[j]) == '"' ==> !is_white(name[j + 1])
                && name[j + 1] != ';',
        1 <= from <= name.len() + 1,
    ensures
        closing_quote(maybe_quoted(name, true), from) == Some(name.len() as int + 1),
    decreases name.len() + 1 - from,
{
    let value = maybe_quoted(name, true);
    let rest = value.skip(from + 1);
    if from <= name.len() {
        assert(value[from] == name[from - 1]);
        if name[from - 1] == '"' {
            assert(from < name.len()) by {
                if from == name.len() {
                    assert(name.last() == name[from - 1]);
                }
            }
            assert(rest[0] == name[from]);
        }
        lemma_inner_quotes(name, from + 1);
    } else {
        assert(rest =~= seq![]);
    }
}

/// Quotes are taken off a value on both sides, also where there are more than one, and where
/// an opening or a closing one is missing.
pub proof fn law_loose_quotes_are_taken_off(lead: Seq<char>, value: Seq<char>, tail: Seq<char>)
    requires
        is_all(lead, |c: char| c == '"'),
        is_all(tail, |c: char| c == '"'),
        value.len() > 0,
        value[0] != '"',
        value.last() != '"',
    ensures
        unquoted(value + tail) == value,
        !is_white(value[0]) && value[0] != ';' && (forall|j: int|
            0 <= j < value.len() - 1 && (#[trigger] value[j]) == '"' ==> !is_white(value[j + 1])
                && value[j + 1] != ';') ==> unquoted(lead + value) == value,
{
    let none = Seq::<char>::empty();
    law_trimming_leaves_what_is_between(none, value, tail, '"');
    assert(none + value + tail =~= value + tail);
    assert((value + tail)[0] == value[0]);
    law_trimming_leaves_what_is_between(lead, value, none, '"');
    assert(lead + value + none =~= lead + value);
    if !is_white(value[0]) && value[0] != ';' && (forall|j: int|
        0 <= j < value.len() - 1 && (#[trigger] value[j]) == '"' ==> !is_white(value[j + 1])
            && value[j + 1] != ';') {
        lemma_never_closed(lead, value, 1);
    }
}

/// A value whose last character is no quote may be left open.
proof fn lemma_never_closed(lead: Seq<char>, value: Seq<char>, from: int)
    requires
        is_all(lead, |c: char| c == '"'),
        value.len() > 0,
        value.last() != '"',
        !is_white(value[0]),
        value[0] != ';',
        forall|j: int|
            0 <= j < value.len() - 1 && (#[trigger] value[j]) == '"' ==> !is_white(value[j + 1])
                && value[j + 1] != ';',
        1 <= from <= lead.len() + value.len() || from == 1,
    ensures
        closing_quote(lead + value, from) is None,
    decreases lead.len() + value.len() - from,
{
    let whole = lead + value;
    if from < whole.len() {
        let rest = whole.skip(from + 1);
        let p = |c: char| c == '"';
        if whole[from] == '"' {
            assert(from < whole.len() - 1) by {
                if from == whole.len() - 1 {
                    assert(whole[from] == value.last());
                }
            }
            assert(rest[0] == whole[from + 1]);
            if from + 1 < lead.len() {
                assert(p(lead[from + 1]));
            } else if from + 1 == lead.len() {
                assert(rest[0] == value[0]);
            } else {
                assert(whole[from] == value[from - lead.len()]);
                assert(rest[0] == value[from - lead.len() + 1]);
            }
        }
        lemma_never_closed(lead, value, from + 1);
    }
}

/// A line that describes a part, in letters of either case, names the file that stands behind
/// its first `filename=`: without white space around the value, without its quotes, and then
/// without the spaces around. Where nothing is left, it names none.
pub proof fn law_file_names_are_read(
    lead: Seq<char>,
    gap: Seq<char>,
    value: Seq<char>,
    tail: Seq<char>,
    before: Seq<char>,
    name: Seq<char>,
    after: Seq<char>,
)
    requires
        lead.len() >= 20,
        ascii_lowercase(lead.take(20)) == "content-disposition:"@,
        find(lead + "filename="@, "filename="@) == Some(lead.len() as int),
        is_all(gap, |c: char| is_white(c)),
        is_all(tail, |c: char| is_white(c)),
        value.len() > 0 ==> !is_white(value[0]) && !is_white(value.last()),
        is_all(before, |c: char| c == ' '),
        is_all(after, |c: char| c == ' '),
        name.len() > 0 ==> name[0] != ' ' && name.last() != ' ',
        unquoted(value) == before + name + after,
    ensures
        name_in_line(lead + "filename="@ + gap + value + tail) == if name.len() > 0 {
            Some(name)
        } else {
            None
        },
{
    reveal_strlit("filename=");
    reveal_strlit("content-disposition:");
    let key = "filename="@;
    let rest = gap + value + tail;
    let short = lead + key;
    let whole = short + rest;
    let n = lead.len() as int;
    assert(lead + "filename="@ + gap + value + tail =~= whole);
    lemma_find_from(short, key, 0);
    assert(whole.subrange(0, short.len() as int) =~= short);
    assert forall|j: int| 0 <= j <= n implies occurs_at(whole, key, j) == occurs_at(
        short,
        key,
        j,
    ) by {
        lemma_occurs_in_part(whole, key, 0, short.len() as int, j);
    }
    lemma_find_is(whole, key, 0, n);
    assert(whole.skip(n + 9) =~= rest);
    law_trimming_leaves_what_is_between(gap, value, tail, ' ');
    law_trimming_leaves_what_is_between(before, name, after, ' ');
    let start = lead.take(20);
    assert(whole =~= start + whole.skip(20));
    lemma_disposition_in_either_case(start, whole.skip(20));
}

/// The start of a line that describes a part may be written in either case.
proof fn lemma_disposition_in_either_case(start: Seq<char>, rest: Seq<char>)
    requires
        start.len() == 20,
        ascii_lowercase(start) == "content-disposition:"@,
    ensures
        begins_with(lowercase(start + rest), "content-disposition:"@),
{
    reveal_strlit("content-disposition:");
    let line = start + rest;
    let known = "content-disposition:"@;
    assert forall|i: int| 0 <= i < start.len() implies '\0' <= #[trigger] start[i] <= '\u{7f}' by {
        assert(known[i] == ascii_lowercase(start)[i]);
        assert(known[i] <= '\u{7f}');
    }
    lemma_ascii_start(start, rest);
    if !is_ascii_chars(line) {
        let n = ascii_start(line);
        assert(ascii_lowercase(line.take(n)).subrange(0, 20) =~= ascii_lowercase(start));
        assert(lowercase(line).subrange(0, 20) =~= ascii_lowercase(line.take(n)).subrange(0, 20));
    } else {
        assert(lowercase(line).subrange(0, 20) =~= ascii_lowercase(start));
    }
}

/// A part with a named file is kept under the safe form of the name, and not at all where
/// nothing is left of it.
pub proof fn law_parts_are_kept_under_safe_names(head: Seq<u8>, data: Seq<u8>, name: Seq<char>)
    requires
        find(head + blank_line(), blank_line()) == Some(head.len() as int),
        name_in_head(head) == Some(name),
    ensures
        file_in_part(head + blank_line() + data + crlf()) == if safe_name(name).len() > 0 {
            Some(UploadView { name: safe_name(name), data })
        } else {
            None
        },
{
    let short = head + blank_line();
    let tail = data + crlf();
    let part = short + tail;
    let n = head.len() as int;
    assert(head + blank_line() + data + crlf() =~= part);
    lemma_find_from(short, blank_line(), 0);
    assert(part.subrange(0, short.len() as int) =~= short);
    assert forall|j: int| 0 <= j <= n implies occurs_at(part, blank_line(), j) == occurs_at(
        short,
        blank_line(),
        j,
    ) by {
        lemma_occurs_in_part(part, blank_line(), 0, short.len() as int, j);
    }
    lemma_find_is(part, blank_line(), 0, n);
    assert(part.take(n) =~= head);
    assert(part.skip(n + 4) =~= tail);
    assert(tail.subrange(tail.len() - 2, tail.len() as int) =~= crlf());
    assert(tail.take(tail.len() - 2) =~= data);
}

/// A file is kept in the directory of the uploads; and where the first marker is a closing one,
/// none is.
pub proof fn law_uploads_stand_in_their_directory(
    rel: Seq<char>,
    body: Seq<u8>,
    content_type: Seq<char>,
    boundary: Seq<char>,
)
    ensures
        !(rel.len() > 0 && rel[0] == '/') ==> upload_path(rel) == "uploads/"@ + rel,
        boundary_of(content_type) == Some(boundary) && marker_places(
            body,
            marker_of(boundary),
            0,
        ).len() >= 2 && is_closing(
            body,
            marker_places(body, marker_of(boundary), 0)[0] + marker_of(boundary).len(),
        ) ==> uploaded_files(body, content_type) == Ok::<Seq<UploadView>, MultipartError>(seq![]),
{
    reveal_strlit("uploads");
    reveal_strlit("uploads/");
    if !(rel.len() > 0 && rel[0] == '/') {
        assert(upload_path(rel) =~= "uploads/"@ + rel);
    }
}

/// The boundary stands behind `boundary=`, repeated or not, without the quotes around it.
pub proof fn law_boundary_stands_behind_its_name(
    pieces: Seq<Seq<char>>,
    i: int,
    n: nat,
    lead: Seq<char>,
    boundary: Seq<char>,
    tail: Seq<char>,
)
    requires
        forall|j: int| 0 <= j < pieces.len() ==> !(#[trigger] pieces[j]).contains(';'),
        0 <= i < pieces.len(),
        forall|j: int|
            0 <= j < i ==> !begins_with(trim(#[trigger] pieces[j]), "boundary="@),
        n > 0,
        trim(pieces[i]) == copies_of("boundary="@, n) + (lead + boundary + tail),
        is_all(lead, |c: char| c == '"'),
        is_all(tail, |c: char| c == '"'),
        boundary.len() > 0 ==> boundary[0] != '"' && boundary.last() != '"',
        !begins_with(lead + boundary + tail, "boundary="@),
    ensures
        boundary_of(joined_by(pieces, ";"@)) == Some(boundary),
{
    reveal_strlit("boundary=");
    reveal_strlit(";");
    let prefix = "boundary="@;
    let rest = lead + boundary + tail;
    let fewer = copies_of(prefix, (n - 1) as nat);
    assert(trim(pieces[i]) =~= prefix + (fewer + rest));
    law_begins_with(trim(pieces[i]), prefix, fewer + rest);
    lemma_copies_stripped(prefix, n, rest);
    law_trimming_leaves_what_is_between(lead, boundary, tail, '"');
    assert forall|j: int| 0 <= j < pieces.len() implies find(
        #[trigger] pieces[j],
        ";"@,
    ) is None by {
        lemma_symbol_not_found(pieces[j], ";"@);
    }
    lemma_split_joined(pieces, ";"@);
    lemma_first_boundary(pieces, i);
}

/// Pieces without a boundary are passed over.
proof fn lemma_first_boundary(pieces: Seq<Seq<char>>, i: int)
    requires
        0 <= i < pieces.len(),
        forall|j: int|
            0 <= j < i ==> !begins_with(trim(#[trigger] pieces[j]), "boundary="@),
        boundary_in_piece(pieces[i]) is Some,
    ensures
        boundary_in_pieces(pieces) == boundary_in_piece(pieces[i]),
    decreases pieces.len(),
{
    if i > 0 {
        let rest = pieces.skip(1);
        assert(!begins_with(trim(pieces[0]), "boundary="@));
        assert forall|j: int| 0 <= j < i - 1 implies !begins_with(
            trim(#[trigger] rest[j]),
            "boundary="@,
        ) by {
            assert(rest[j] == pieces[j + 1]);
        }
        assert(rest[i - 1] == pieces[i]);
        lemma_first_boundary(rest, i - 1);
    }
}

/// A quoted value reaches to the first quote behind which it ends; more quotes than one on
/// either side belong to it no more than one does, and quotes inside it do.
pub proof fn law_quoted_values_are_read(
    lead: Seq<char>,
    value: Seq<char>,
    tail: Seq<char>,
    rest: Seq<char>,
)
    requires
        lead.len() > 0,
        tail.len() > 0,
        is_all(lead, |c: char| c == '"'),
        is_all(tail, |c: char| c == '"'),
        value.len() > 0,
        value[0] != '"',
        value.last() != '"',
        lead.len() > 1 ==> !is_white(value[0]) && value[0] != ';',
        forall|j: int|
            0 <= j < value.len() - 1 && (#[trigger] value[j]) == '"' ==> !is_white(value[j + 1])
                && value[j + 1] != ';',
        ends_setting(rest),
    ensures
        unquoted(lead + value + tail + rest) == value,
{
    let whole = lead + value + tail + rest;
    let n = lead.len() as int;
    let m = n + value.len();
    let at = m + tail.len() - 1;
    let p = |c: char| c == '"';
    assert(is_all(lead, p) && is_all(tail, p));
    assert(whole[0] == lead[0] && p(lead[0]));
    assert(whole[at] == tail.last() && p(tail[tail.len() - 1]));
    assert(whole.skip(at + 1) =~= rest);
    assert forall|j: int| 1 <= j < at && #[trigger] whole[j] == '"' implies !is_white(whole[j + 1])
        && whole[j + 1] != ';' by {
        if j + 1 < n {
            assert(whole[j + 1] == lead[j + 1] && p(lead[j + 1]));
        } else if j + 1 == n {
            assert(whole[j + 1] == value[0]);
        } else if j + 1 < m {
            assert(whole[j] == value[j - n]);
            assert(whole[j + 1] == value[j - n + 1]);
        } else {
            assert(whole[j + 1] == tail[j + 1 - m] && p(tail[j + 1 - m]));
        }
    }
    lemma_first_closing(whole, 1, at);
    let inner = tail.drop_last();
    assert(whole.take(at) =~= lead + value + inner);
    assert(is_all(inner, |c: char| c == '"')) by {
        assert forall|j: int| 0 <= j < inner.len() implies p(#[trigger] inner[j]) by {
            assert(p(tail[j]));
        }
    }
    law_trimming_leaves_what_is_between(lead, value, inner, '"');
}

/// The first quote behind which a value ends closes it.
proof fn lemma_first_closing(s: Seq<char>, from: int, at: int)
    requires
        0 <= from <= at < s.len(),
        s[at] == '"',
        ends_setting(s.skip(at + 1)),
        forall|j: int|
            from <= j < at && #[trigger] s[j] == '"' ==> !is_white(s[j + 1]) && s[j + 1] != ';',
    ensures
        closing_quote(s, from) == Some(at),
    decreases at - from,
{
    if from < at {
        let rest = s.skip(from + 1);
        assert(rest[0] == s[from + 1]);
        lemma_first_closing(s, from + 1, at);
    }
}

/// The parts of a body count one by one, up to a closing marker or the last one: each gives
/// its file, or none, before those of the parts behind it.
pub proof fn law_parts_count_one_by_one(
    body: Seq<u8>,
    marker_len: int,
    places: Seq<int>,
    k: int,
    part: Seq<u8>,
)
    requires
        0 <= k < places.len(),
    ensures
        k == places.len() - 1 ==> files_from(body, marker_len, places, k) == Seq::<
            UploadView,
        >::empty(),
        is_closing(body, places[k] + marker_len) ==> files_from(body, marker_len, places, k)
            == Seq::<UploadView>::empty(),
        k < places.len() - 1 && !is_closing(body, places[k] + marker_len) && part == part_between(
            body,
            places[k] + marker_len,
            places[k + 1],
        ) ==> {
            let files = files_from(body, marker_len, places, k);
            let later = files_from(body, marker_len, places, k + 1);
            &&& file_in_part(part) is None ==> files == later
            &&& file_in_part(part) is Some ==> files.len() > 0 && files[0] == file_in_part(part)->0
                && files.skip(1) == later
        },
{
    if k < places.len() - 1 && !is_closing(body, places[k] + marker_len) && part == part_between(
        body,
        places[k] + marker_len,
        places[k + 1],
    ) && file_in_part(part) is Some {
        let later = files_from(body, marker_len, places, k + 1);
        assert((seq![file_in_part(part)->0] + later).skip(1) =~= later);
    }
}

} // verus!
