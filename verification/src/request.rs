//! Requests: their parts, and how they are read from bytes.
use vstd::prelude::*;
use vstd::slice::{slice_subrange, slice_to_vec};
use vstd::utf8::{
    decode_utf8, is_char_boundary, is_char_boundary_iff_not_is_continuation_byte, valid_utf8,
    valid_utf8_split,
};

use crate::numbers::{read_usize, usize_value};
use crate::search::{
    cut, find, lemma_find_from, position, split, split_all, split_once, views,
};
use crate::table::TextMap;
use crate::text::{
    chars_of, lowercase, same_text, string_of, text_from_utf8, to_lowercase, trim, trimmed, words,
    words_of,
};

verus! {

/// The method of a request.
#[derive(Debug, PartialEq, Eq, Copy, Clone, Structural)]
pub enum HttpMethod {
    GET,
    POST,
    DELETE,
    UNSUPPORTED,
}

/// What a request says.
#[verifier::ext_equal]
pub struct RequestView {
    pub method: HttpMethod,
    pub path: Seq<char>,
    pub headers: Map<Seq<char>, Seq<char>>,
    pub body: Seq<u8>,
}

/// A request.
pub struct HttpRequest {
    pub method: HttpMethod,
    pub path: String,
    pub headers: TextMap<String>,
    pub body: Vec<u8>,
}

impl View for HttpRequest {
    type V = RequestView;

    open spec fn view(&self) -> RequestView {
        RequestView {
            method: self.method,
            path: self.path@,
            headers: self.headers@,
            body: self.body@,
        }
    }
}

/// The bytes of a line end.
pub open spec fn crlf() -> Seq<u8> {
    seq![13u8, 10u8]
}

/// The bytes of a line end with an empty line after it.
pub open spec fn blank_line() -> Seq<u8> {
    seq![13u8, 10u8, 13u8, 10u8]
}

/// The lines of a text.
pub open spec fn lines_of(s: Seq<char>) -> Seq<Seq<char>> {
    split(s, "\r\n"@)
}

/// The method that a word names.
pub open spec fn method_named(word: Seq<char>) -> HttpMethod {
    if word == "GET"@ {
        HttpMethod::GET
    } else if word == "POST"@ {
        HttpMethod::POST
    } else if word == "DELETE"@ {
        HttpMethod::DELETE
    } else {
        HttpMethod::UNSUPPORTED
    }
}

/// The headers that lines give: the name in lower case, the value as it stands. A line
/// without a colon and a space gives none, and a later line counts over an earlier one.
pub open spec fn headers_in(lines: Seq<Seq<char>>) -> Map<Seq<char>, Seq<char>>
    decreases lines.len(),
{
    if lines.len() == 0 {
        Map::empty()
    } else {
        let before = headers_in(lines.drop_last());
        match split_once(lines.last(), ": "@) {
            Some((name, value)) => before.insert(lowercase(name), value),
            None => before,
        }
    }
}

/// The request that bytes hold. The head ends at the first blank line and is text; its
/// first line has three words. The body is every byte after the blank line.
pub open spec fn request_in(buffer: Seq<u8>) -> Option<RequestView> {
    match find(buffer, blank_line()) {
        None => None,
        Some(i) => if !valid_utf8(buffer.take(i)) {
            None
        } else {
            let lines = lines_of(decode_utf8(buffer.take(i)));
            let parts = words(lines[0]);
            if parts.len() != 3 {
                None
            } else {
                Some(
                    RequestView {
                        method: method_named(parts[0]),
                        path: parts[1],
                        headers: headers_in(lines.skip(1)),
                        body: buffer.skip(i + 4),
                    },
                )
            }
        },
    }
}

/// The headers of a buffer that is text throughout, and where its body starts.
pub open spec fn headers_of(buffer: Seq<u8>) -> Option<(int, Map<Seq<char>, Seq<char>>)> {
    if !valid_utf8(buffer) {
        None
    } else {
        match find(buffer, blank_line()) {
            None => None,
            Some(i) => Some(
                (i + 4, headers_in(lines_of(decode_utf8(buffer.take(i))).skip(1))),
            ),
        }
    }
}

/// The lines before the first empty one.
pub open spec fn until_empty(lines: Seq<Seq<char>>) -> Seq<Seq<char>>
    decreases lines.len(),
{
    if lines.len() == 0 || lines[0].len() == 0 {
        seq![]
    } else {
        seq![lines[0]] + until_empty(lines.skip(1))
    }
}

/// The first line of a text and the headers on the lines up to the first empty one.
pub open spec fn first_line_and_headers(buffer: Seq<u8>) -> Option<
    (Seq<char>, Map<Seq<char>, Seq<char>>),
> {
    if !valid_utf8(buffer) {
        None
    } else {
        let lines = lines_of(decode_utf8(buffer));
        Some((lines[0], headers_in(until_empty(lines.skip(1)))))
    }
}

/// Any text has at least one line.
pub proof fn lemma_lines_of(s: Seq<char>)
    ensures
        lines_of(s).len() > 0,
{
    reveal_strlit("\r\n");
}

/// Reads the headers on the lines from `from` on.
fn read_headers(lines: &Vec<&[char]>, from: usize) -> (r: TextMap<String>)
    requires
        from <= lines@.len(),
    ensures
        r@ == headers_in(views(lines@).skip(from as int)),
{
    let mut headers: TextMap<String> = TextMap::new();
    let colon = chars_of(": ");
    let mut i: usize = from;
    let ghost all = views(lines@).skip(from as int);
    assert(all.take(0) =~= seq![]);
    while i < lines.len()
        invariant
            from <= i <= lines@.len(),
            colon@ == ": "@,
            all == views(lines@).skip(from as int),
            headers@ == headers_in(all.take(i - from)),
        decreases lines@.len() - i,
    {
        assert(all.take(i - from + 1).drop_last() =~= all.take(i - from));
        assert(all.take(i - from + 1).last() == lines@[i as int]@);
        if let Some((name, value)) = cut(lines[i], colon.as_slice()) {
            headers.insert(to_lowercase(string_of(name).as_str()), string_of(value));
        }
        i += 1;
    }
    assert(all.take(lines@.len() - from) =~= all);
    headers
}

/// The method that a word names.
fn read_method(word: &[char]) -> (m: HttpMethod)
    ensures
        m == method_named(word@),
{
    let s = string_of(word);
    if same_text(s.as_str(), "GET") {
        HttpMethod::GET
    } else if same_text(s.as_str(), "POST") {
        HttpMethod::POST
    } else if same_text(s.as_str(), "DELETE") {
        HttpMethod::DELETE
    } else {
        HttpMethod::UNSUPPORTED
    }
}

/// Reads a request.
pub fn parse_request(buffer: &[u8]) -> (r: Option<HttpRequest>)
    ensures
        match r {
            Some(request) => request_in(buffer@) == Some(request@),
            None => request_in(buffer@) is None,
        },
{
    let total: usize = buffer.len();
    let sep: Vec<u8> = vec![13u8, 10u8, 13u8, 10u8];
    assert(sep@ =~= blank_line());
    let i: usize = match position(buffer, sep.as_slice()) {
        None => {
            return None;
        },
        Some(i) => i,
    };
    assert(buffer@.take(i as int) =~= buffer@.subrange(0, i as int));
    let head = match text_from_utf8(slice_subrange(buffer, 0, i)) {
        None => {
            return None;
        },
        Some(head) => head,
    };
    let head_chars = chars_of(head.as_str());
    let line_end = chars_of("\r\n");
    proof {
        reveal_strlit("\r\n");
    }
    let lines = split_all(head_chars.as_slice(), line_end.as_slice());
    let parts = words_of(lines[0]);
    assert(views(lines@)[0] == lines@[0]@);
    if parts.len() != 3 {
        return None;
    }
    assert(views(parts@)[0] == parts@[0]@ && views(parts@)[1] == parts@[1]@);
    let method = read_method(parts[0]);
    let path = string_of(parts[1]);
    let headers = read_headers(&lines, 1);
    assert(buffer@.skip(i + 4) =~= buffer@.subrange(i + 4, buffer@.len() as int));
    let body = slice_to_vec(slice_subrange(buffer, i + 4, total));
    Some(HttpRequest { method, path, headers, body })
}

/// Text cut before a plain control byte is two texts.
pub proof fn lemma_cut_before_control(bytes: Seq<u8>, i: int)
    requires
        valid_utf8(bytes),
        0 <= i < bytes.len(),
        bytes[i] < 0x80,
    ensures
        is_char_boundary(bytes, i),
        valid_utf8(bytes.take(i)),
        valid_utf8(bytes.skip(i)),
        decode_utf8(bytes) == decode_utf8(bytes.take(i)) + decode_utf8(bytes.skip(i)),
{
    is_char_boundary_iff_not_is_continuation_byte(bytes, i);
    valid_utf8_split(bytes, i);
    vstd::utf8::decode_utf8_split(bytes, i);
    assert(bytes.take(i) =~= bytes.subrange(0, i));
    assert(bytes.skip(i) =~= bytes.subrange(i, bytes.len() as int));
}

/// Reads the headers of a buffer that is text throughout, with the position at which its
/// body starts.
pub fn parse_headers(buffer: &[u8]) -> (r: Option<(usize, TextMap<String>)>)
    ensures
        match r {
            Some((start, headers)) => headers_of(buffer@) == Some((start as int, headers@)),
            None => headers_of(buffer@) is None,
        },
{
    let total: usize = buffer.len();
    if text_from_utf8(buffer).is_none() {
        return None;
    }
    let sep: Vec<u8> = vec![13u8, 10u8, 13u8, 10u8];
    assert(sep@ =~= blank_line());
    let i: usize = match position(buffer, sep.as_slice()) {
        None => {
            return None;
        },
        Some(i) => i,
    };
    proof {
        lemma_find_from(buffer@, blank_line(), 0);
        assert(buffer@[i as int] == buffer@.subrange(i as int, i + 4)[0]);
        lemma_cut_before_control(buffer@, i as int);
        assert(buffer@.take(i as int) =~= buffer@.subrange(0, i as int));
        reveal_strlit("\r\n");
    }
    let head = match text_from_utf8(slice_subrange(buffer, 0, i)) {
        None => {
            return None;
        },
        Some(head) => head,
    };
    let head_chars = chars_of(head.as_str());
    let line_end = chars_of("\r\n");
    let lines = split_all(head_chars.as_slice(), line_end.as_slice());
    Some((i + 4, read_headers(&lines, 1)))
}

/// Reads the first line and the headers from the first `size` bytes of a buffer.
pub fn parse_http_request(buffer: &[u8], size: usize) -> (r: Option<(String, TextMap<String>)>)
    requires
        size <= buffer@.len(),
    ensures
        match r {
            Some((line, headers)) => first_line_and_headers(buffer@.take(size as int)) == Some(
                (line@, headers@),
            ),
            None => first_line_and_headers(buffer@.take(size as int)) is None,
        },
{
    assert(buffer@.take(size as int) =~= buffer@.subrange(0, size as int));
    let text = match text_from_utf8(slice_subrange(buffer, 0, size)) {
        None => {
            return None;
        },
        Some(text) => text,
    };
    let chars = chars_of(text.as_str());
    let line_end = chars_of("\r\n");
    proof {
        reveal_strlit("\r\n");
    }
    let lines = split_all(chars.as_slice(), line_end.as_slice());
    let ghost all = views(lines@);
    assert(all[0] == lines@[0]@);
    let mut kept: Vec<&[char]> = Vec::new();
    let mut i: usize = 1;
    assert(views(kept@) + until_empty(all.skip(1)) =~= until_empty(all.skip(1)));
    while i < lines.len() && lines[i].len() > 0
        invariant
            1 <= i <= lines@.len(),
            all == views(lines@),
            until_empty(all.skip(1)) == views(kept@) + until_empty(all.skip(i as int)),
        decreases lines@.len() - i,
    {
        let ghost before = views(kept@);
        assert(all.skip(i as int)[0] == lines@[i as int]@);
        assert(all.skip(i as int).skip(1) =~= all.skip(i + 1));
        kept.push(lines[i]);
        assert(views(kept@) =~= before.push(lines@[i as int]@));
        assert(views(kept@) + until_empty(all.skip(i + 1)) =~= before + until_empty(
            all.skip(i as int),
        ));
        i += 1;
    }
    assert(i < lines@.len() ==> all.skip(i as int)[0] == lines@[i as int]@);
    assert(views(kept@).skip(0) =~= until_empty(all.skip(1)));
    Some((string_of(lines[0]), read_headers(&kept, 0)))
}

/// The size line of the chunk that starts at `pos`: its length, and the number on it.
pub open spec fn chunk_at(data: Seq<u8>, pos: int) -> Option<(int, nat)> {
    match find(data.skip(pos), crlf()) {
        None => None,
        Some(k) => match usize_value(trim(decode_utf8(data.subrange(pos, pos + k))), 16) {
            None => None,
            Some(size) => Some((k, size)),
        },
    }
}

/// The place after the chunk at `pos`: past the size line, the data, and their line ends.
pub open spec fn after_chunk(pos: int, chunk: (int, nat)) -> int {
    pos + chunk.0 + 2 + chunk.1 + 2
}

/// How many of `total` bytes lie at `pos` or later.
pub open spec fn bytes_left(total: int, pos: int) -> int {
    if pos < total {
        total - pos
    } else {
        0
    }
}

/// Walking the chunks from `pos` on comes to one of size zero.
pub open spec fn ends_with_zero_chunk(data: Seq<u8>, pos: int) -> bool
    decreases bytes_left(data.len() as int, pos),
{
    if pos < 0 || pos >= data.len() {
        false
    } else {
        proof {
            lemma_find_from(data.skip(pos), crlf(), 0);
        }
        match chunk_at(data, pos) {
            None => false,
            Some(chunk) => chunk.1 == 0 || ends_with_zero_chunk(data, after_chunk(pos, chunk)),
        }
    }
}

/// Walking the chunks from `pos` on, every chunk starts between two characters and ends at
/// `limit` or before.
pub open spec fn chunks_below(data: Seq<u8>, pos: int, limit: int) -> bool
    decreases bytes_left(data.len() as int, pos),
{
    if pos < 0 || pos >= data.len() {
        true
    } else {
        proof {
            lemma_find_from(data.skip(pos), crlf(), 0);
        }
        is_char_boundary(data, pos) && match chunk_at(data, pos) {
            None => true,
            Some(chunk) => chunk.1 == 0 || (after_chunk(pos, chunk) <= limit && chunks_below(
                data,
                after_chunk(pos, chunk),
                limit,
            )),
        }
    }
}

/// Walking the chunks from `pos` on, every chunk starts between two characters and at a
/// place that a `usize` can hold.
pub open spec fn chunks_in_place(data: Seq<u8>, pos: int) -> bool {
    chunks_below(data, pos, usize::MAX as int)
}

/// Walks the chunks of a body, and tells whether they come to one of size zero; gives nothing
/// where a chunk of a text would start inside a character or past what a `usize` can hold.
pub fn walk_chunks(data: &[u8]) -> (r: Option<bool>)
    ensures
        match r {
            Some(complete) => {
                &&& valid_utf8(data@) ==> chunks_in_place(data@, 0)
                &&& complete == (valid_utf8(data@) && ends_with_zero_chunk(data@, 0))
            },
            None => valid_utf8(data@) && !chunks_in_place(data@, 0),
        },
{
    if text_from_utf8(data).is_none() {
        return Some(false);
    }
    let total: usize = data.len();
    let line_end: Vec<u8> = vec![13u8, 10u8];
    assert(line_end@ =~= crlf());
    let mut pos: usize = 0;
    while pos < total
        invariant
            total == data@.len(),
            line_end@ == crlf(),
            valid_utf8(data@),
            chunks_in_place(data@, 0) == chunks_in_place(data@, pos as int),
            ends_with_zero_chunk(data@, 0) == ends_with_zero_chunk(data@, pos as int),
        decreases bytes_left(total as int, pos as int),
    {
        proof {
            is_char_boundary_iff_not_is_continuation_byte(data@, pos as int);
        }
        if 0x80 <= data[pos] && data[pos] <= 0xbf {
            return None;
        }
        let rest = slice_subrange(data, pos, total);
        assert(rest@ =~= data@.skip(pos as int));
        let k: usize = match position(rest, line_end.as_slice()) {
            None => {
                return Some(false);
            },
            Some(k) => k,
        };
        proof {
            valid_utf8_split(data@, pos as int);
            lemma_find_from(rest@, crlf(), 0);
            assert(rest@[k as int] == rest@.subrange(k as int, k + 2)[0]);
            lemma_cut_before_control(rest@, k as int);
            assert(rest@.take(k as int) =~= data@.subrange(pos as int, pos + k));
        }
        let line = slice_subrange(data, pos, pos + k);
        let text = match text_from_utf8(line) {
            None => {
                return Some(false);
            },
            Some(text) => text,
        };
        let chars = chars_of(text.as_str());
        match read_usize(trimmed(chars.as_slice()), 16) {
            None => {
                return Some(false);
            },
            Some(size) => {
                if size == 0 {
                    return Some(true);
                }
                let start: usize = pos + k + 2;
                if size > usize::MAX - start || usize::MAX - start - size < 2 {
                    return None;
                }
                pos = start + size + 2;
            },
        }
    }
    Some(false)
}

/// Tells whether a chunked body is complete: whether its chunks, each found from the size
/// of the one before, come to one of size zero.
pub fn process_chunked_request(data: &[u8]) -> (r: bool)
    requires
        valid_utf8(data@) ==> chunks_in_place(data@, 0),
    ensures
        r == (valid_utf8(data@) && ends_with_zero_chunk(data@, 0)),
{
    walk_chunks(data).unwrap()
}

} // verus!
