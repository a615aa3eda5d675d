//! Requests are read back as a client writes them.
use vstd::prelude::*;
use vstd::utf8::{
    decode_utf8, decode_utf8_encode_utf8, encode_utf8, encode_utf8_decode_utf8,
    encode_utf8_valid_utf8, is_ascii_chars_encode_utf8, pop_first_scalar, valid_utf8,
};

use crate::laws::encoding::{
    encodings, lemma_encode_concat, lemma_encode_joined, lemma_encode_line_end,
    lemma_encoding_not_empty, lemma_plain_byte_absent,
};
use crate::laws::splitting::{
    joined_by, lemma_before_first, lemma_occurs_in_part, lemma_split_append, lemma_split_first, lemma_split_joined, lemma_symbol_not_found,
};
use crate::request::{
    blank_line, crlf, first_line_and_headers, headers_in, headers_of, lemma_cut_before_control,
    lines_of, method_named, request_in, until_empty, RequestView,
};
use crate::search::{find, lemma_find_from, lemma_find_is, lemma_find_none, occurs_at, split};
use crate::text::{is_line_text, is_white, lowercase, word_len, words};

verus! {

/// The body of a request is every byte after the first blank line, whatever these bytes are,
/// and does not touch what is read of the head.
pub proof fn law_body_is_preserved(head: Seq<u8>, body: Seq<u8>)
    requires
        find(head + blank_line(), blank_line()) == Some(head.len() as int),
    ensures
        match request_in(head + blank_line()) {
            Some(request) => request.body == Seq::<u8>::empty() && request_in(
                head + blank_line() + body,
            ) == Some(RequestView { body, ..request }),
            None => request_in(head + blank_line() + body) is None,
        },
{
    let short = head + blank_line();
    let long = short + body;
    let n = head.len() as int;
    lemma_find_from(short, blank_line(), 0);
    assert(long.subrange(0, short.len() as int) =~= short);
    assert forall|j: int| 0 <= j <= n implies occurs_at(long, blank_line(), j) == occurs_at(
        short,
        blank_line(),
        j,
    ) by {
        lemma_occurs_in_part(long, blank_line(), 0, short.len() as int, j);
    }
    lemma_find_is(long, blank_line(), 0, n);
    assert(short.take(n) =~= head);
    assert(long.take(n) =~= head);
    assert(short.skip(n + 4) =~= seq![]);
    assert(long.skip(n + 4) =~= body);
}

/// A word: not empty, and without white space.
pub open spec fn is_word(s: Seq<char>) -> bool {
    s.len() > 0 && forall|i: int| 0 <= i < s.len() ==> !is_white(#[trigger] s[i])
}

/// A name and a value that a header can have.
pub open spec fn is_header(header: (Seq<char>, Seq<char>)) -> bool {
    &&& is_line_text(header.0)
    &&& is_line_text(header.1)
    &&& find(header.0, ": "@) is None
}

/// The line of a header.
pub open spec fn header_line(header: (Seq<char>, Seq<char>)) -> Seq<char> {
    header.0 + ": "@ + header.1
}

/// The lines of a request's head as a client writes it.
pub open spec fn head_lines(
    method: Seq<char>,
    path: Seq<char>,
    version: Seq<char>,
    headers: Seq<(Seq<char>, Seq<char>)>,
) -> Seq<Seq<char>> {
    seq![method + " "@ + path + " "@ + version] + headers.map_values(
        |h: (Seq<char>, Seq<char>)| header_line(h),
    )
}

/// The bytes of a request as a client writes it.
pub open spec fn request_bytes(
    method: Seq<char>,
    path: Seq<char>,
    version: Seq<char>,
    headers: Seq<(Seq<char>, Seq<char>)>,
    body: Seq<u8>,
) -> Seq<u8> {
    encode_utf8(joined_by(head_lines(method, path, version, headers), "\r\n"@)) + blank_line()
        + body
}

/// The headers by their names in lower case; a later one counts over an earlier one.
pub open spec fn header_table(headers: Seq<(Seq<char>, Seq<char>)>) -> Map<Seq<char>, Seq<char>>
    decreases headers.len(),
{
    if headers.len() == 0 {
        Map::empty()
    } else {
        header_table(headers.drop_last()).insert(lowercase(headers.last().0), headers.last().1)
    }
}

/// The first word of a text that begins with one and goes on with white space.
pub proof fn lemma_word_before_space(word: Seq<char>, rest: Seq<char>)
    requires
        is_word(word),
        rest.len() == 0 || is_white(rest[0]),
    ensures
        word_len(word + rest) == word.len(),
        words(word + rest) == seq![word] + words(rest),
    decreases word.len(),
{
    let s = word + rest;
    lemma_word_len_is(word, rest);
    assert(!is_white(s[0])) by {
        assert(s[0] == word[0]);
    }
    assert(s.subrange(0, word.len() as int) =~= word);
    assert(s.skip(word.len() as int) =~= rest);
}

/// The length of a run of non-white characters.
proof fn lemma_word_len_is(word: Seq<char>, rest: Seq<char>)
    requires
        forall|i: int| 0 <= i < word.len() ==> !is_white(#[trigger] word[i]),
        rest.len() == 0 || is_white(rest[0]),
    ensures
        word_len(word + rest) == word.len(),
    decreases word.len(),
{
    let s = word + rest;
    if word.len() == 0 {
        assert(s =~= rest);
    } else {
        assert(s.skip(1) =~= word.skip(1) + rest);
        assert(s[0] == word[0]);
        lemma_word_len_is(word.skip(1), rest);
    }
}

/// The words of a first line.
proof fn lemma_first_line_words(method: Seq<char>, path: Seq<char>, version: Seq<char>)
    requires
        is_word(method),
        is_word(path),
        is_word(version),
    ensures
        words(method + " "@ + path + " "@ + version) == seq![method, path, version],
{
    reveal_strlit(" ");
    let tail = " "@ + version;
    let mid = " "@ + path + tail;
    lemma_word_before_space(version, seq![]);
    assert(version + seq![] =~= version);
    assert(tail.skip(1) =~= version);
    lemma_word_before_space(path, tail);
    assert(mid.skip(1) =~= path + tail);
    lemma_word_before_space(method, mid);
    assert(method + " "@ + path + " "@ + version =~= method + mid);
    assert(words(method + mid) =~= seq![method, path, version]);
}

/// A word fits on one line.
proof fn lemma_word_is_line_text(s: Seq<char>)
    requires
        is_word(s),
    ensures
        is_line_text(s),
{
    if s.contains('\r') {
        let k = choose|k: int| 0 <= k < s.len() && s[k] == '\r';
        assert(!is_white(s[k]));
    }
    if s.contains('\n') {
        let k = choose|k: int| 0 <= k < s.len() && s[k] == '\n';
        assert(!is_white(s[k]));
    }
}

/// Two texts that fit on one line fit on one line together.
pub proof fn lemma_line_text_concat(a: Seq<char>, b: Seq<char>)
    requires
        is_line_text(a),
        is_line_text(b),
    ensures
        is_line_text(a + b),
{
    let s = a + b;
    assert forall|c: char| s.contains(c) implies a.contains(c) || b.contains(c) by {
        let k = choose|k: int| 0 <= k < s.len() && s[k] == c;
        if k < a.len() {
            assert(a[k] == c);
        } else {
            assert(b[k - a.len()] == c);
        }
    }
}

/// The lines of a head fit on one line each and are not empty.
proof fn lemma_head_lines(
    method: Seq<char>,
    path: Seq<char>,
    version: Seq<char>,
    headers: Seq<(Seq<char>, Seq<char>)>,
    i: int,
)
    requires
        is_word(method),
        is_word(path),
        is_word(version),
        forall|k: int| 0 <= k < headers.len() ==> is_header(#[trigger] headers[k]),
        0 <= i <= headers.len(),
    ensures
        is_line_text(head_lines(method, path, version, headers)[i]),
        head_lines(method, path, version, headers)[i].len() > 0,
{
    reveal_strlit(" ");
    reveal_strlit(": ");
    if i == 0 {
        lemma_word_is_line_text(method);
        lemma_word_is_line_text(path);
        lemma_word_is_line_text(version);
        lemma_line_text_concat(method, " "@);
        lemma_line_text_concat(method + " "@, path);
        lemma_line_text_concat(method + " "@ + path, " "@);
        lemma_line_text_concat(method + " "@ + path + " "@, version);
    } else {
        let header = headers[i - 1];
        assert(is_header(header));
        assert(head_lines(method, path, version, headers)[i] == header_line(header));
        lemma_line_text_concat(header.0, ": "@);
        lemma_line_text_concat(header.0 + ": "@, header.1);
    }
}

/// The lines of headers are read as the headers.
proof fn lemma_header_lines(headers: Seq<(Seq<char>, Seq<char>)>)
    requires
        forall|k: int| 0 <= k < headers.len() ==> is_header(#[trigger] headers[k]),
    ensures
        headers_in(headers.map_values(|h: (Seq<char>, Seq<char>)| header_line(h))) == header_table(
            headers,
        ),
    decreases headers.len(),
{
    let lines = headers.map_values(|h: (Seq<char>, Seq<char>)| header_line(h));
    if headers.len() > 0 {
        let before = headers.drop_last();
        let header = headers[headers.len() - 1];
        assert forall|k: int| 0 <= k < before.len() implies is_header(#[trigger] before[k]) by {
            assert(before[k] == headers[k]);
        }
        lemma_header_lines(before);
        assert(lines.drop_last() =~= before.map_values(
            |h: (Seq<char>, Seq<char>)| header_line(h),
        ));
        assert(is_header(header));
        assert(lines.last() == header_line(header));
        reveal_strlit(": ");
        lemma_split_first(header.0, ": "@, header.1);
    }
}

/// In lines without carriage returns, none of them empty, the first blank line is the one
/// after the last of them.
pub proof fn lemma_no_blank_line<T>(cr: T, lf: T, pieces: Seq<Seq<T>>, rest: Seq<T>, j: int)
    requires
        cr != lf,
        pieces.len() > 0,
        forall|i: int| 0 <= i < pieces.len() ==> !(#[trigger] pieces[i]).contains(cr),
        forall|i: int| 0 <= i < pieces.len() ==> (#[trigger] pieces[i]).len() > 0,
        0 <= j < joined_by(pieces, seq![cr, lf]).len(),
    ensures
        !occurs_at(
            joined_by(pieces, seq![cr, lf]) + seq![cr, lf, cr, lf] + rest,
            seq![cr, lf, cr, lf],
            j,
        ),
    decreases pieces.len(),
{
    let end = seq![cr, lf];
    let blank = seq![cr, lf, cr, lf];
    let head = joined_by(pieces, end);
    let s = head + blank + rest;
    let first = pieces[0];
    if occurs_at(s, blank, j) {
        let there = s.subrange(j, j + 4);
        assert(there[0] == s[j] && there[2] == s[j + 2] && there[0] == cr && there[2] == cr);
        if j < first.len() {
            assert(s[j] == first[j]);
            assert(first.contains(cr));
        } else {
            let others = pieces.skip(1);
            let tail = joined_by(others, end);
            assert(head == first + end + tail);
            assert(others[0] == pieces[1]);
            assert(tail.len() > 0 && tail[0] == others[0][0]);
            if j == first.len() {
                assert(s[j + 2] == tail[0]);
                assert(pieces[1].contains(cr));
            } else if j == first.len() + 1 {
                assert(s[j] == lf);
            } else {
                let k = j - first.len() - 2;
                let shorter = tail + blank + rest;
                assert forall|i: int| 0 <= i < others.len() implies !(
                #[trigger] others[i]).contains(cr) && others[i].len() > 0 by {
                    assert(others[i] == pieces[i + 1]);
                }
                lemma_no_blank_line(cr, lf, others, rest, k);
                assert(shorter.subrange(k, k + 4) =~= s.subrange(j, j + 4));
            }
        }
    }
}

/// A request is read back as a client writes it: its method, its path, its headers with
/// their names in lower case, and its body, whatever bytes that holds.
pub proof fn law_request_is_read_back(
    method: Seq<char>,
    path: Seq<char>,
    version: Seq<char>,
    headers: Seq<(Seq<char>, Seq<char>)>,
    body: Seq<u8>,
)
    requires
        is_word(method),
        is_word(path),
        is_word(version),
        forall|k: int| 0 <= k < headers.len() ==> is_header(#[trigger] headers[k]),
    ensures
        request_in(request_bytes(method, path, version, headers, body)) == Some(
            RequestView {
                method: method_named(method),
                path,
                headers: header_table(headers),
                body,
            },
        ),
{
    let lines = head_lines(method, path, version, headers);
    let text = joined_by(lines, "\r\n"@);
    let head = encode_utf8(text);
    let bytes = request_bytes(method, path, version, headers, body);
    let pieces = encodings(lines);
    reveal_strlit("\r\n");
    assert forall|i: int| 0 <= i < lines.len() implies find(#[trigger] lines[i], "\r\n"@) is None
        && !pieces[i].contains(13u8) && pieces[i].len() > 0 by {
        lemma_head_lines(method, path, version, headers, i);
        lemma_symbol_not_found(lines[i], "\r\n"@);
        lemma_plain_byte_absent(lines[i], 13u8);
        lemma_encoding_not_empty(lines[i]);
    }
    assert forall|i: int| 0 <= i < pieces.len() implies !(#[trigger] pieces[i]).contains(13u8)
        && pieces[i].len() > 0 by {
        assert(find(lines[i], "\r\n"@) is None);
    }
    lemma_encode_joined(lines);
    let n = head.len() as int;
    assert(bytes.subrange(n, n + 4) =~= blank_line());
    assert forall|j: int| 0 <= j < n implies !occurs_at(bytes, blank_line(), j) by {
        lemma_no_blank_line(13u8, 10u8, pieces, body, j);
    }
    lemma_find_is(bytes, blank_line(), 0, n);
    assert(bytes.take(n) =~= head);
    assert(bytes.skip(n + 4) =~= body);
    encode_utf8_valid_utf8(text);
    encode_utf8_decode_utf8(text);
    lemma_split_joined(lines, "\r\n"@);
    lemma_first_line_words(method, path, version);
    assert(lines.skip(1) =~= headers.map_values(|h: (Seq<char>, Seq<char>)| header_line(h)));
    lemma_header_lines(headers);
}

/// A blank line in a text is one in its bytes.
proof fn lemma_blank_line_in_bytes(head: Seq<char>, rest: Seq<char>, k: int)
    requires
        0 <= k < head.len(),
        occurs_at(head + rest, "\r\n\r\n"@, k),
    ensures
        exists|j: int|
            0 <= j < encode_utf8(head).len() && occurs_at(
                encode_utf8(head + rest),
                blank_line(),
                j,
            ),
{
    let s = head + rest;
    let before = s.take(k);
    let blank = "\r\n\r\n"@;
    let after = s.skip(k + 4);
    reveal_strlit("\r\n\r\n");
    is_ascii_chars_encode_utf8(blank);
    assert(encode_utf8(blank) =~= blank_line());
    assert(s =~= before + s.subrange(k, k + 4) + after);
    lemma_encode_concat(before, blank);
    lemma_encode_concat(before + blank, after);
    let j = encode_utf8(before).len() as int;
    assert(encode_utf8(s).subrange(j, j + 4) =~= blank_line());
    assert(head =~= before + head.skip(k));
    lemma_encode_concat(before, head.skip(k));
    lemma_encoding_not_empty(head.skip(k));
    assert(occurs_at(encode_utf8(s), blank_line(), j));
}

/// Where no blank line begins inside a text that is followed by one, its lines after the
/// first are not empty.
proof fn lemma_lines_not_empty(s: Seq<char>, i: int)
    requires
        forall|k: int|
            0 <= k < s.len() ==> !#[trigger] occurs_at(s + "\r\n\r\n"@, "\r\n\r\n"@, k),
        0 < i < lines_of(s).len(),
    ensures
        lines_of(s)[i].len() > 0,
    decreases s.len(),
{
    reveal_strlit("\r\n");
    reveal_strlit("\r\n\r\n");
    let sep = "\r\n"@;
    let blank = "\r\n\r\n"@;
    let at = find(s, sep)->0;
    let rest = s.skip(at + 2);
    lemma_before_first(s, sep);
    assert(lines_of(s)[i] == lines_of(rest)[i - 1]);
    assert forall|k: int| 0 <= k < rest.len() implies !#[trigger] occurs_at(
        rest + blank,
        blank,
        k,
    ) by {
        assert(!occurs_at(s + blank, blank, k + at + 2));
        lemma_occurs_in_part(s + blank, blank, at + 2, (s + blank).len() as int, k + at + 2);
        assert((s + blank).subrange(at + 2, (s + blank).len() as int) =~= rest + blank);
    }
    if i > 1 {
        lemma_lines_not_empty(rest, i - 1);
    } else if lines_of(rest)[0].len() == 0 {
        lemma_find_from(rest, sep, 0);
        if rest.len() == 0 {
        } else {
            assert(find(rest, sep) == Some(0int));
            assert(rest.subrange(0, 2) == sep);
            assert(rest[0] == rest.subrange(0, 2)[0] && rest[1] == rest.subrange(0, 2)[1]);
        }
        assert(s.subrange(at, at + 2) == sep);
        assert(s[at] == s.subrange(at, at + 2)[0] && s[at + 1] == s.subrange(at, at + 2)[1]);
        assert((s + blank).subrange(at, at + 4) =~= blank);
        assert(!occurs_at(s + blank, blank, at));
    }
}

/// The lines before the first empty one, where that one is known.
proof fn lemma_until_empty(lines: Seq<Seq<char>>, rest: Seq<Seq<char>>)
    requires
        forall|i: int| 0 <= i < lines.len() ==> (#[trigger] lines[i]).len() > 0,
        rest.len() > 0,
        rest[0].len() == 0,
    ensures
        until_empty(lines + rest) == lines,
    decreases lines.len(),
{
    if lines.len() == 0 {
        assert((lines + rest)[0] == rest[0]);
        assert(lines =~= seq![]);
    } else {
        let tail = lines.skip(1);
        assert forall|i: int| 0 <= i < tail.len() implies (#[trigger] tail[i]).len() > 0 by {
            assert(tail[i] == lines[i + 1]);
        }
        lemma_until_empty(tail, rest);
        assert((lines + rest).skip(1) =~= tail + rest);
        assert((lines + rest)[0] == lines[0]);
        assert(seq![lines[0]] + tail =~= lines);
    }
}

/// The three ways to read the head of a request agree: on text with a blank line they give
/// the same headers, and where it is a request also the same body, path and method.
pub proof fn law_readers_agree(buffer: Seq<u8>)
    requires
        headers_of(buffer) is Some,
    ensures
        first_line_and_headers(buffer) is Some,
        (first_line_and_headers(buffer)->0).1 == (headers_of(buffer)->0).1,
        match request_in(buffer) {
            Some(request) => {
                let words = words((first_line_and_headers(buffer)->0).0);
                &&& request.headers == (headers_of(buffer)->0).1
                &&& request.body == buffer.skip((headers_of(buffer)->0).0)
                &&& words.len() == 3
                &&& request.path == words[1]
                &&& request.method == method_named(words[0])
            },
            None => words((first_line_and_headers(buffer)->0).0).len() != 3,
        },
{
    let n = find(buffer, blank_line())->0;
    lemma_find_from(buffer, blank_line(), 0);
    assert(buffer[n] == buffer.subrange(n, n + 4)[0]);
    assert(buffer[n + 2] == buffer.subrange(n, n + 4)[2]);
    lemma_cut_before_control(buffer, n);
    let head = buffer.take(n);
    let text = decode_utf8(buffer);
    let s = decode_utf8(head);
    let blank = "\r\n\r\n"@;
    let sep = "\r\n"@;
    reveal_strlit("\r\n");
    reveal_strlit("\r\n\r\n");
    // The text after the head begins with a blank line.
    let tail_bytes = buffer.skip(n);
    let tail = decode_utf8(tail_bytes);
    assert(tail_bytes.subrange(0, 4) =~= buffer.subrange(n, n + 4));
    let body = lemma_blank_line_decoded(tail_bytes);
    assert(tail == blank + body);
    assert(text == s + tail);
    // No blank line begins inside the head.
    decode_utf8_encode_utf8(buffer);
    decode_utf8_encode_utf8(head);
    assert forall|k: int| 0 <= k < s.len() implies !#[trigger] occurs_at(
        s + blank,
        blank,
        k,
    ) by {
        if occurs_at(s + blank, blank, k) {
            lemma_occurs_in_part(s + tail, blank, 0, (s + blank).len() as int, k);
            assert((s + tail).subrange(0, (s + blank).len() as int) =~= s + blank);
            lemma_blank_line_in_bytes(s, tail, k);
        }
    }
    let lines = lines_of(s);
    assert forall|i: int| 0 <= i < lines.skip(1).len() implies (#[trigger] lines.skip(1)[i]).len()
        > 0 by {
        lemma_lines_not_empty(s, i + 1);
    }
    lemma_split_append(s, sep, sep + body);
    assert(s + sep + (sep + body) =~= text);
    lemma_symbol_not_found(Seq::<char>::empty(), sep);
    lemma_split_first(Seq::<char>::empty(), sep, body);
    assert(Seq::<char>::empty() + sep + body =~= sep + body);
    let rest = split(sep + body, sep);
    assert(rest[0].len() == 0);
    crate::request::lemma_lines_of(s);
    lemma_until_empty(lines.skip(1), rest);
    assert(lines_of(text).skip(1) =~= lines.skip(1) + rest);
    assert(lines_of(text)[0] == lines[0]);
}

/// Bytes that begin with a blank line are a text that does.
proof fn lemma_blank_line_decoded(bytes: Seq<u8>) -> (body: Seq<char>)
    requires
        valid_utf8(bytes),
        occurs_at(bytes, blank_line(), 0),
    ensures
        decode_utf8(bytes) == "\r\n\r\n"@ + body,
{
    reveal_strlit("\r\n\r\n");
    let there = bytes.subrange(0, 4);
    assert(bytes[0] == there[0] && bytes[1] == there[1] && bytes[2] == there[2] && bytes[3]
        == there[3]);
    let one = pop_first_scalar(bytes);
    let two = pop_first_scalar(one);
    let three = pop_first_scalar(two);
    let four = pop_first_scalar(three);
    assert((13u8 & 0x7f) == 13 && (10u8 & 0x7f) == 10) by (bit_vector);
    assert(valid_utf8(one) && one[0] == bytes[1]);
    assert(valid_utf8(two) && two[0] == bytes[2]);
    assert(valid_utf8(three) && three[0] == bytes[3]);
    assert(decode_utf8(bytes) == seq!['\r'] + decode_utf8(one));
    assert(decode_utf8(one) == seq!['\n'] + decode_utf8(two));
    assert(decode_utf8(two) == seq!['\r'] + decode_utf8(three));
    assert(decode_utf8(three) == seq!['\n'] + decode_utf8(four));
    let body = decode_utf8(four);
    assert(decode_utf8(bytes) =~= "\r\n\r\n"@ + body);
    body
}

/// The three methods that the server knows are named by their words in capitals, and every
/// other word names none of them.
pub proof fn law_methods_are_named(word: Seq<char>)
    ensures
        method_named(word) is GET <==> word == "GET"@,
        method_named(word) is POST <==> word == "POST"@,
        method_named(word) is DELETE <==> word == "DELETE"@,
        method_named(word) is UNSUPPORTED <==> word != "GET"@ && word != "POST"@ && word
            != "DELETE"@,
{
    reveal_strlit("GET");
    reveal_strlit("POST");
    reveal_strlit("DELETE");
    assert("GET"@.len() == 3 && "POST"@.len() == 4 && "DELETE"@.len() == 6);
}

/// Line ends are a carriage return and a line feed, and a blank line is two of them.
pub proof fn law_line_ends()
    ensures
        crlf() == seq![13u8, 10u8],
        blank_line() == crlf() + crlf(),
        encode_utf8("\r\n"@) == crlf(),
{
    assert(blank_line() =~= crlf() + crlf());
    lemma_encode_line_end();
}

/// Bytes are a request exactly where they have a blank line, what stands before the first one
/// is text, and its first line has three words; then these are the method, the path and the
/// version, and the bytes after the blank line are the body.
pub proof fn law_requests_are_told(buffer: Seq<u8>, head: Seq<u8>, body: Seq<u8>)
    ensures
        (forall|j: int| 0 <= j <= buffer.len() - 4 ==> (#[trigger] buffer.skip(j)).take(4)
            != blank_line()) ==> request_in(buffer) is None,
        find(head + blank_line(), blank_line()) == Some(head.len() as int) ==> {
            let read = request_in(head + blank_line() + body);
            let parts = words(split(decode_utf8(head), "\r\n"@)[0]);
            &&& read is Some <==> valid_utf8(head) && parts.len() == 3
            &&& read is Some ==> {
                &&& read->0.method == method_named(parts[0])
                &&& read->0.path == parts[1]
                &&& read->0.body == body
                &&& read->0.headers == headers_in(
                    split(decode_utf8(head), "\r\n"@).skip(1),
                )
            }
        },
{
    if forall|j: int| 0 <= j <= buffer.len() - 4 ==> (#[trigger] buffer.skip(j)).take(4)
        != blank_line() {
        assert forall|j: int| 0 <= j implies !occurs_at(buffer, blank_line(), j) by {
            if occurs_at(buffer, blank_line(), j) {
                assert(buffer.skip(j).take(4) =~= buffer.subrange(j, j + 4));
            }
        }
        lemma_find_none(buffer, blank_line(), 0);
    }
    if find(head + blank_line(), blank_line()) == Some(head.len() as int) {
        let short = head + blank_line();
        let long = short + body;
        let n = head.len() as int;
        lemma_find_from(short, blank_line(), 0);
        assert(long.subrange(0, short.len() as int) =~= short);
        assert forall|j: int| 0 <= j <= n implies occurs_at(long, blank_line(), j) == occurs_at(
            short,
            blank_line(),
            j,
        ) by {
            lemma_occurs_in_part(long, blank_line(), 0, short.len() as int, j);
        }
        lemma_find_is(long, blank_line(), 0, n);
        assert(long.take(n) =~= head);
        assert(long.skip(n + 4) =~= body);
    }
}

/// Each further line with a colon and a space gives a header under its name in lower case,
/// over an earlier one of that name; a line without gives none.
pub proof fn law_each_line_gives_its_header(
    lines: Seq<Seq<char>>,
    name: Seq<char>,
    value: Seq<char>,
    other: Seq<char>,
)
    requires
        find(name, ": "@) is None,
        find(other, ": "@) is None,
    ensures
        headers_in(Seq::<Seq<char>>::empty()) == Map::<Seq<char>, Seq<char>>::empty(),
        headers_in(lines.push(name + ": "@ + value)) == headers_in(lines).insert(
            lowercase(name),
            value,
        ),
        headers_in(lines.push(other)) == headers_in(lines),
{
    reveal_strlit(": ");
    let line = name + ": "@ + value;
    assert(lines.push(line).drop_last() =~= lines);
    assert(lines.push(other).drop_last() =~= lines);
    lemma_split_first(name, ": "@, value);
}

/// The head of a buffer can be read exactly where the buffer is text with a blank line; the
/// first line of a buffer can be read exactly where it is text, and its headers stand on the
/// lines from the second one to the first empty one or the end.
pub proof fn law_heads_are_read(buffer: Seq<u8>, lines: Seq<Seq<char>>, n: int)
    ensures
        headers_of(buffer) is Some <==> valid_utf8(buffer) && exists|j: int|
            0 <= j <= buffer.len() - 4 && (#[trigger] buffer.skip(j)).take(4) == blank_line(),
        first_line_and_headers(buffer) is Some <==> valid_utf8(buffer),
        0 < n <= lines.len() && (forall|i: int|
            0 <= i < lines.len() ==> is_line_text(#[trigger] lines[i])) && (forall|i: int|
            1 <= i < n ==> (#[trigger] lines[i]).len() > 0) && (n < lines.len() ==> lines[n].len()
            == 0) ==> first_line_and_headers(encode_utf8(joined_by(lines, "\r\n"@))) == Some(
            (lines[0], headers_in(lines.subrange(1, n))),
        ),
{
    lemma_find_from(buffer, blank_line(), 0);
    if exists|j: int|
        0 <= j <= buffer.len() - 4 && (#[trigger] buffer.skip(j)).take(4) == blank_line() {
        let j = choose|j: int|
            0 <= j <= buffer.len() - 4 && (#[trigger] buffer.skip(j)).take(4) == blank_line();
        assert(buffer.skip(j).take(4) =~= buffer.subrange(j, j + 4));
        assert(occurs_at(buffer, blank_line(), j));
    }
    if let Some(i) = find(buffer, blank_line()) {
        assert(buffer.skip(i).take(4) =~= buffer.subrange(i, i + 4));
    }
    if 0 < n <= lines.len() && (forall|i: int|
        0 <= i < lines.len() ==> is_line_text(#[trigger] lines[i])) && (forall|i: int|
        1 <= i < n ==> (#[trigger] lines[i]).len() > 0) && (n < lines.len() ==> lines[n].len()
        == 0) {
        reveal_strlit("\r\n");
        let text = joined_by(lines, "\r\n"@);
        encode_utf8_valid_utf8(text);
        encode_utf8_decode_utf8(text);
        assert forall|i: int| 0 <= i < lines.len() implies find(
            #[trigger] lines[i],
            "\r\n"@,
        ) is None by {
            lemma_symbol_not_found(lines[i], "\r\n"@);
        }
        lemma_split_joined(lines, "\r\n"@);
        let some = lines.subrange(1, n);
        assert forall|i: int| 0 <= i < some.len() implies (#[trigger] some[i]).len() > 0 by {
            assert(some[i] == lines[i + 1]);
        }
        if n < lines.len() {
            assert(lines.skip(1) =~= some + lines.skip(n));
            lemma_until_empty(some, lines.skip(n));
        } else {
            assert(lines.skip(1) =~= some);
            lemma_until_end(some);
        }
    }
}

/// Where no line is empty, all of them count.
proof fn lemma_until_end(lines: Seq<Seq<char>>)
    requires
        forall|i: int| 0 <= i < lines.len() ==> (#[trigger] lines[i]).len() > 0,
    ensures
        until_empty(lines) == lines,
    decreases lines.len(),
{
    if lines.len() == 0 {
        assert(lines =~= seq![]);
    } else {
        let tail = lines.skip(1);
        assert forall|i: int| 0 <= i < tail.len() implies (#[trigger] tail[i]).len() > 0 by {
            assert(tail[i] == lines[i + 1]);
        }
        lemma_until_end(tail);
        assert(seq![lines[0]] + tail =~= lines);
    }
}

} // verus!
