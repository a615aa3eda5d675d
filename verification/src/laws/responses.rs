//! A client can tell the parts of a response.
use vstd::prelude::*;
use vstd::utf8::{
    decode_utf8, encode_utf8, encode_utf8_decode_utf8, encode_utf8_valid_utf8,
    is_ascii_chars_encode_utf8, valid_utf8,
};

use crate::laws::encoding::{
    encodings, lemma_encode_concat, lemma_encode_joined, lemma_encoding_not_empty,
    lemma_plain_byte_absent,
};
use crate::laws::numbers::{is_written_digit, lemma_digits};
use crate::laws::requests::{header_line, lemma_line_text_concat, lemma_no_blank_line};
use crate::laws::splitting::{
    joined_by, lemma_joined_push, lemma_split_joined, lemma_symbol_not_found,
};
use crate::numbers::decimal;
use crate::request::{blank_line, lines_of};
use crate::response::{header_lines, response_head, response_text, with_header, ResponseView};
use crate::search::{find, lemma_find_is, occurs_at};
use crate::status::StatusCode;
use crate::table::put;
use crate::text::is_line_text;

verus! {

/// The lines before the headers that are the response's own.
pub open spec fn standard_lines(r: ResponseView, date: Seq<char>) -> Seq<Seq<char>> {
    seq![
        "HTTP/1.1 "@ + r.status.line(),
        "Server: RustServer/1.0"@,
        "Date: "@ + date,
        "Content-Type: "@ + r.content_type,
        "Content-Length: "@ + decimal(encode_utf8(r.body).len() as int),
    ]
}

/// The lines of a response before the blank one.
pub open spec fn response_lines(r: ResponseView, date: Seq<char>) -> Seq<Seq<char>> {
    standard_lines(r, date) + r.headers.map_values(
        |h: (Seq<char>, Seq<char>)| header_line(h),
    )
}

/// The response is made of texts that fit on one line each.
pub open spec fn has_line_texts(r: ResponseView) -> bool {
    &&& is_line_text(r.content_type)
    &&& forall|i: int|
        0 <= i < r.headers.len() ==> is_line_text((#[trigger] r.headers[i]).0) && is_line_text(
            r.headers[i].1,
        )
}

/// The lines of a response, each with its end, are its head.
proof fn lemma_response_head(r: ResponseView, date: Seq<char>)
    ensures
        joined_by(response_lines(r, date), "\r\n"@) + "\r\n"@ == response_head(r, date),
{
    let own = standard_lines(r, date);
    let sep = "\r\n"@;
    lemma_header_part(own, r.headers);
    reveal_strlit("\r\n");
    reveal_strlit("Server: RustServer/1.0");
    reveal_strlit("\r\nServer: RustServer/1.0\r\nDate: ");
    reveal_strlit("Date: ");
    reveal_strlit("\r\nContent-Type: ");
    reveal_strlit("Content-Type: ");
    reveal_strlit("\r\nContent-Length: ");
    reveal_strlit("Content-Length: ");
    reveal_with_fuel(joined_by, 6);
    let t1 = own.skip(1);
    let t2 = t1.skip(1);
    let t3 = t2.skip(1);
    let t4 = t3.skip(1);
    assert(t4 =~= seq![own[4]]);
    assert("\r\nServer: RustServer/1.0\r\nDate: "@ =~= sep + "Server: RustServer/1.0"@ + sep
        + "Date: "@);
    assert("\r\nContent-Type: "@ =~= sep + "Content-Type: "@);
    assert("\r\nContent-Length: "@ =~= sep + "Content-Length: "@);
    assert(joined_by(own, sep) =~= own[0] + sep + (own[1] + sep + (own[2] + sep + (own[3] + sep
        + own[4]))));
    assert(joined_by(own, sep) + sep + header_lines(r.headers) =~= response_head(r, date));
}

/// The headers of a response stand after its other lines.
proof fn lemma_header_part(own: Seq<Seq<char>>, headers: Seq<(Seq<char>, Seq<char>)>)
    requires
        own.len() > 0,
    ensures
        joined_by(
            own + headers.map_values(|h: (Seq<char>, Seq<char>)| header_line(h)),
            "\r\n"@,
        ) + "\r\n"@ == joined_by(own, "\r\n"@) + "\r\n"@ + header_lines(headers),
    decreases headers.len(),
{
    let sep = "\r\n"@;
    let lines = headers.map_values(|h: (Seq<char>, Seq<char>)| header_line(h));
    if headers.len() == 0 {
        assert(own + lines =~= own);
        assert(joined_by(own, sep) + sep + header_lines(headers) =~= joined_by(own, sep) + sep);
    } else {
        let before = headers.drop_last();
        let lines_before = before.map_values(|h: (Seq<char>, Seq<char>)| header_line(h));
        let last = header_line(headers.last());
        lemma_header_part(own, before);
        assert(own + lines =~= (own + lines_before).push(last));
        lemma_joined_push(own + lines_before, sep, last);
        assert(joined_by(own, sep) + sep + header_lines(headers) =~= joined_by(own, sep) + sep
            + header_lines(before) + last + sep);
    }
}

/// The line of a status fits on one line.
proof fn lemma_status_line(status: StatusCode)
    ensures
        is_line_text(status.line()),
{
    reveal_strlit("200 OK");
    reveal_strlit("400 Bad Request");
    reveal_strlit("403 Forbidden");
    reveal_strlit("404 Not Found");
    reveal_strlit("405 Method Not Allowed");
    reveal_strlit("413 Payload Too Large");
    reveal_strlit("500 Internal Server Error");
}

/// The lines of a response fit on one line each and are not empty.
proof fn lemma_response_line(r: ResponseView, date: Seq<char>, i: int)
    requires
        is_line_text(date),
        has_line_texts(r),
        0 <= i < response_lines(r, date).len(),
    ensures
        is_line_text(response_lines(r, date)[i]),
        response_lines(r, date)[i].len() > 0,
{
    let line = response_lines(r, date)[i];
    reveal_strlit("HTTP/1.1 ");
    reveal_strlit("Server: RustServer/1.0");
    reveal_strlit("Date: ");
    reveal_strlit("Content-Type: ");
    reveal_strlit("Content-Length: ");
    reveal_strlit(": ");
    if i == 0 {
        lemma_status_line(r.status);
        lemma_line_text_concat("HTTP/1.1 "@, r.status.line());
    } else if i == 2 {
        lemma_line_text_concat("Date: "@, date);
    } else if i == 3 {
        lemma_line_text_concat("Content-Type: "@, r.content_type);
    } else if i == 4 {
        let n = encode_utf8(r.body).len();
        let number = decimal(n as int);
        lemma_digits(n, 10);
        assert forall|c: char| number.contains(c) implies is_written_digit(c) by {
            let k = choose|k: int| 0 <= k < number.len() && number[k] == c;
            assert(is_written_digit(number[k]));
        }
        lemma_line_text_concat("Content-Length: "@, number);
    } else if i > 4 {
        let header = r.headers[i - 5];
        assert(line == header_line(header));
        lemma_line_text_concat(header.0, ": "@);
        lemma_line_text_concat(header.0 + ": "@, header.1);
    }
}

/// What is sent of a response: its head up to the first blank line, whose lines are the
/// status, the server, the date, the type and the length of the body and then the headers;
/// and after the blank line the body, which has as many bytes as the head says.
pub proof fn law_response_parts_are_told(r: ResponseView, date: Seq<char>)
    requires
        is_line_text(date),
        has_line_texts(r),
    ensures
        ({
            let sent = encode_utf8(response_text(r, date));
            match find(sent, blank_line()) {
                Some(n) => {
                    &&& valid_utf8(sent.take(n))
                    &&& lines_of(decode_utf8(sent.take(n))) == response_lines(r, date)
                    &&& sent.skip(n + 4) == encode_utf8(r.body)
                    &&& response_lines(r, date)[4] == "Content-Length: "@ + decimal(
                        sent.len() - (n + 4),
                    )
                },
                None => false,
            }
        }),
{
    let lines = response_lines(r, date);
    let sep = "\r\n"@;
    let head = joined_by(lines, sep);
    let bytes = encode_utf8(head);
    let body = encode_utf8(r.body);
    let sent = encode_utf8(response_text(r, date));
    let pieces = encodings(lines);
    reveal_strlit("\r\n");
    reveal_strlit("\r\n\r\n");
    lemma_response_head(r, date);
    assert(response_text(r, date) =~= head + "\r\n\r\n"@ + r.body);
    is_ascii_chars_encode_utf8("\r\n\r\n"@);
    assert(encode_utf8("\r\n\r\n"@) =~= blank_line());
    lemma_encode_concat(head, "\r\n\r\n"@);
    lemma_encode_concat(head + "\r\n\r\n"@, r.body);
    assert(sent == bytes + blank_line() + body);
    assert forall|i: int| 0 <= i < lines.len() implies find(#[trigger] lines[i], sep) is None
        && !pieces[i].contains(13u8) && pieces[i].len() > 0 by {
        lemma_response_line(r, date, i);
        lemma_symbol_not_found(lines[i], sep);
        lemma_plain_byte_absent(lines[i], 13u8);
        lemma_encoding_not_empty(lines[i]);
    }
    assert forall|i: int| 0 <= i < pieces.len() implies !(#[trigger] pieces[i]).contains(13u8)
        && pieces[i].len() > 0 by {
        assert(find(lines[i], sep) is None);
    }
    lemma_encode_joined(lines);
    let n = bytes.len() as int;
    assert(sent.subrange(n, n + 4) =~= blank_line());
    assert forall|j: int| 0 <= j < n implies !occurs_at(sent, blank_line(), j) by {
        lemma_no_blank_line(13u8, 10u8, pieces, body, j);
    }
    lemma_find_is(sent, blank_line(), 0, n);
    assert(sent.take(n) =~= bytes);
    assert(sent.skip(n + 4) =~= body);
    encode_utf8_valid_utf8(head);
    encode_utf8_decode_utf8(head);
    lemma_split_joined(lines, sep);
}

/// A header that is set takes the place of the one with its name, and stands behind the others
/// where none has it; nothing else about the response changes.
pub proof fn law_headers_are_set_in_place(
    r: ResponseView,
    name: Seq<char>,
    value: Seq<char>,
    i: int,
)
    requires
        0 <= i <= r.headers.len(),
        forall|j: int| 0 <= j < i ==> (#[trigger] r.headers[j]).0 != name,
        i < r.headers.len() ==> r.headers[i].0 == name,
    ensures
        with_header(r, name, value) == (ResponseView {
            status: r.status,
            content_type: r.content_type,
            body: r.body,
            headers: if i < r.headers.len() {
                r.headers.update(i, (name, value))
            } else {
                r.headers.push((name, value))
            },
        }),
{
    lemma_put_in_place(r.headers, name, value, i);
}

/// An entry is put where its key stands first, or behind all others.
proof fn lemma_put_in_place(
    listing: Seq<(Seq<char>, Seq<char>)>,
    key: Seq<char>,
    value: Seq<char>,
    i: int,
)
    requires
        0 <= i <= listing.len(),
        forall|j: int| 0 <= j < i ==> (#[trigger] listing[j]).0 != key,
        i < listing.len() ==> listing[i].0 == key,
    ensures
        put(listing, key, value) == if i < listing.len() {
            listing.update(i, (key, value))
        } else {
            listing.push((key, value))
        },
    decreases listing.len(),
{
    if listing.len() == 0 {
        assert(listing.push((key, value)) =~= seq![(key, value)]);
    } else if i > 0 {
        let rest = listing.skip(1);
        assert(listing[0].0 != key);
        assert forall|j: int| 0 <= j < i - 1 implies (#[trigger] rest[j]).0 != key by {
            assert(rest[j] == listing[j + 1]);
        }
        lemma_put_in_place(rest, key, value, i - 1);
        if i < listing.len() {
            assert(seq![listing[0]] + rest.update(i - 1, (key, value)) =~= listing.update(
                i,
                (key, value),
            ));
        } else {
            assert(seq![listing[0]] + rest.push((key, value)) =~= listing.push((key, value)));
        }
    }
}

} // verus!
