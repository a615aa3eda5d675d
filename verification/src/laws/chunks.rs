//! A chunked body is complete exactly when its last chunk has come.
use vstd::prelude::*;
use vstd::utf8::{
    encode_utf8, encode_utf8_decode_utf8, encode_utf8_valid_utf8, is_ascii_chars,
    is_ascii_chars_encode_utf8, is_char_boundary, is_char_boundary_iff_not_is_continuation_byte,
    pop_first_scalar, valid_utf8, valid_utf8_concat,
};

use crate::laws::encoding::{lemma_encode_line_end, lemma_plain_byte_absent};
use crate::laws::numbers::{is_written_digit, law_hexadecimal_is_read_back, lemma_digits};
use crate::laws::splitting::{lemma_find_after_piece, lemma_symbol_not_found, lemma_trim_keeps};
use crate::numbers::{hexadecimal, usize_value};
use crate::request::{
    after_chunk, bytes_left, chunk_at, chunks_below, chunks_in_place, crlf, ends_with_zero_chunk,
    lemma_cut_before_control,
};
use crate::search::{find, lemma_find_from};
use crate::text::{is_line_text, trim, white};

verus! {

/// A chunk as a client writes it: its size in hexadecimal, its data, and a line end after
/// each.
pub open spec fn chunk_bytes(data: Seq<u8>) -> Seq<u8> {
    encode_utf8(hexadecimal(data.len())) + crlf() + data + crlf()
}

/// Chunks one after the other.
pub open spec fn chunked(chunks: Seq<Seq<u8>>) -> Seq<u8>
    decreases chunks.len(),
{
    if chunks.len() == 0 {
        seq![]
    } else {
        chunk_bytes(chunks[0]) + chunked(chunks.skip(1))
    }
}

/// The last chunk, which has no data.
pub open spec fn last_chunk() -> Seq<u8> {
    chunk_bytes(seq![])
}

/// The size line of a chunk is read as its size.
proof fn lemma_chunk_at(data: Seq<u8>, pos: int, chunk: Seq<u8>, rest: Seq<u8>)
    requires
        0 <= pos <= data.len(),
        chunk.len() <= usize::MAX,
        data.skip(pos) == chunk_bytes(chunk) + rest,
    ensures
        chunk_at(data, pos) is Some,
        (chunk_at(data, pos)->0).1 == chunk.len(),
        after_chunk(pos, chunk_at(data, pos)->0) == pos + chunk_bytes(chunk).len(),
        pos < data.len(),
        data[pos] < 0x80,
{
    let digits = hexadecimal(chunk.len());
    let size = encode_utf8(digits);
    let s = data.skip(pos);
    let k = size.len() as int;
    assert(s.len() == chunk_bytes(chunk).len() + rest.len());
    lemma_digits(chunk.len(), 16);
    assert(is_ascii_chars(digits)) by {
        assert forall|i: int| 0 <= i < digits.len() implies '\0' <= #[trigger] digits[i]
            <= '\u{7f}' by {
            assert(is_written_digit(digits[i]));
        }
    }
    is_ascii_chars_encode_utf8(digits);
    if digits.contains('\r') {
        let i = choose|i: int| 0 <= i < digits.len() && digits[i] == '\r';
        assert(is_written_digit(digits[i]));
    }
    lemma_plain_byte_absent(digits, 13u8);
    lemma_symbol_not_found(size, crlf());
    assert(s =~= size + crlf() + (chunk + crlf() + rest));
    lemma_find_after_piece(size, crlf(), chunk + crlf() + rest);
    assert(data.subrange(pos, pos + k) =~= size) by {
        assert forall|i: int| 0 <= i < k implies data[pos + i] == size[i] by {
            assert(s[i] == data[pos + i]);
        }
    }
    encode_utf8_decode_utf8(digits);
    assert(is_written_digit(digits[0]) && is_written_digit(digits.last()));
    lemma_trim_keeps(digits, white());
    law_hexadecimal_is_read_back(chunk.len() as usize);
    assert(data[pos] == s[0] && s[0] == size[0]);
}

/// The bytes of a chunk of text are text.
proof fn lemma_chunk_is_text(chunk: Seq<u8>)
    requires
        valid_utf8(chunk),
    ensures
        valid_utf8(chunk_bytes(chunk)),
{
    let size = encode_utf8(hexadecimal(chunk.len()));
    encode_utf8_valid_utf8(hexadecimal(chunk.len()));
    lemma_encode_line_end();
    encode_utf8_valid_utf8("\r\n"@);
    valid_utf8_concat(size, crlf());
    valid_utf8_concat(size + crlf(), chunk);
    valid_utf8_concat(size + crlf() + chunk, crlf());
}

/// Chunks of text, one after the other, are text.
proof fn lemma_chunks_are_text(chunks: Seq<Seq<u8>>)
    requires
        forall|i: int| 0 <= i < chunks.len() ==> valid_utf8(#[trigger] chunks[i]),
    ensures
        valid_utf8(chunked(chunks)),
    decreases chunks.len(),
{
    if chunks.len() > 0 {
        let others = chunks.skip(1);
        assert forall|i: int| 0 <= i < others.len() implies valid_utf8(#[trigger] others[i]) by {
            assert(others[i] == chunks[i + 1]);
        }
        lemma_chunks_are_text(others);
        lemma_chunk_is_text(chunks[0]);
        valid_utf8_concat(chunk_bytes(chunks[0]), chunked(others));
    }
}

/// Walking the chunks from one on.
proof fn lemma_walk(data: Seq<u8>, pos: int, chunks: Seq<Seq<u8>>, complete: bool)
    requires
        valid_utf8(data),
        0 <= pos <= data.len() <= usize::MAX,
        forall|i: int| 0 <= i < chunks.len() ==> (#[trigger] chunks[i]).len() > 0,
        data.skip(pos) == chunked(chunks) + if complete {
            last_chunk()
        } else {
            seq![]
        },
    ensures
        chunks_in_place(data, pos),
        ends_with_zero_chunk(data, pos) == complete,
    decreases chunks.len(),
{
    let tail = if complete {
        last_chunk()
    } else {
        seq![]
    };
    if chunks.len() == 0 {
        assert(chunked(chunks) + tail =~= tail);
        if complete {
            assert(data.skip(pos) =~= last_chunk() + Seq::<u8>::empty());
            lemma_chunk_at(data, pos, seq![], seq![]);
            is_char_boundary_iff_not_is_continuation_byte(data, pos);
        } else {
            assert(data.skip(pos).len() == 0);
        }
    } else {
        let chunk = chunks[0];
        let others = chunks.skip(1);
        let rest = chunked(others) + tail;
        assert(data.skip(pos) =~= chunk_bytes(chunk) + rest);
        lemma_chunk_at(data, pos, chunk, rest);
        is_char_boundary_iff_not_is_continuation_byte(data, pos);
        let next = pos + chunk_bytes(chunk).len();
        assert(data.skip(pos).len() == chunk_bytes(chunk).len() + rest.len());
        assert(data.skip(next) =~= rest) by {
            assert(data.skip(next) =~= data.skip(pos).skip(chunk_bytes(chunk).len() as int));
        }
        assert forall|i: int| 0 <= i < others.len() implies (#[trigger] others[i]).len() > 0 by {
            assert(others[i] == chunks[i + 1]);
        }
        lemma_walk(data, next, others, complete);
    }
}

/// Chunks of text as a client writes them are taken for a complete body where the last chunk
/// is there, and for an incomplete one where it is missing.
pub proof fn law_last_chunk_completes_body(chunks: Seq<Seq<u8>>)
    requires
        forall|i: int| 0 <= i < chunks.len() ==> valid_utf8(#[trigger] chunks[i]),
        forall|i: int| 0 <= i < chunks.len() ==> (#[trigger] chunks[i]).len() > 0,
        (chunked(chunks) + last_chunk()).len() <= usize::MAX,
    ensures
        valid_utf8(chunked(chunks) + last_chunk()),
        chunks_in_place(chunked(chunks) + last_chunk(), 0),
        ends_with_zero_chunk(chunked(chunks) + last_chunk(), 0),
        valid_utf8(chunked(chunks)),
        chunks_in_place(chunked(chunks), 0),
        !ends_with_zero_chunk(chunked(chunks), 0),
{
    let whole = chunked(chunks) + last_chunk();
    let open_end = chunked(chunks);
    lemma_chunks_are_text(chunks);
    lemma_chunk_is_text(seq![]);
    valid_utf8_concat(open_end, last_chunk());
    assert(whole.skip(0) =~= whole);
    lemma_walk(whole, 0, chunks, true);
    assert(open_end.skip(0) =~= open_end + Seq::<u8>::empty());
    lemma_walk(open_end, 0, chunks, false);
}

/// Walking the chunks behind a prefix is walking them without it.
proof fn lemma_behind(prefix: Seq<u8>, rest: Seq<u8>, pos: int, limit: int)
    requires
        0 <= pos,
    ensures
        ({
            let data = prefix + rest;
            let n = prefix.len() as int;
            &&& ends_with_zero_chunk(data, n + pos) == ends_with_zero_chunk(rest, pos)
            &&& valid_utf8(data) && valid_utf8(rest) ==> chunks_below(data, n + pos, n + limit)
                == chunks_below(rest, pos, limit)
        }),
    decreases bytes_left(rest.len() as int, pos),
{
    let data = prefix + rest;
    let n = prefix.len() as int;
    if pos < rest.len() {
        assert(data.skip(n + pos) =~= rest.skip(pos));
        lemma_find_from(rest.skip(pos), crlf(), 0);
        if find(rest.skip(pos), crlf()) is Some {
            let k = find(rest.skip(pos), crlf())->0;
            assert(data.subrange(n + pos, n + pos + k) =~= rest.subrange(pos, pos + k));
        }
        assert(chunk_at(data, n + pos) == chunk_at(rest, pos));
        assert(data[n + pos] == rest[pos]);
        if valid_utf8(data) && valid_utf8(rest) {
            is_char_boundary_iff_not_is_continuation_byte(data, n + pos);
            is_char_boundary_iff_not_is_continuation_byte(rest, pos);
        }
        if let Some(chunk) = chunk_at(rest, pos) {
            lemma_behind(prefix, rest, after_chunk(pos, chunk), limit);
        }
    }
}

/// What ends at a limit or before ends at a later one or before.
proof fn lemma_below(data: Seq<u8>, pos: int, limit: int, later: int)
    requires
        limit <= later,
        0 <= pos,
        chunks_below(data, pos, limit),
    ensures
        chunks_below(data, pos, later),
    decreases bytes_left(data.len() as int, pos),
{
    if pos < data.len() {
        lemma_find_from(data.skip(pos), crlf(), 0);
        if let Some(chunk) = chunk_at(data, pos) {
            if chunk.1 != 0 {
                lemma_below(data, after_chunk(pos, chunk), limit, later);
            }
        }
    }
}

/// One chunk of text before any rest changes nothing: the whole is text where the rest is,
/// is complete where the rest is, and its chunks can be walked where those of the rest can,
/// with as much more room as the chunk takes. No bytes at all are not complete.
pub proof fn law_chunk_before_rest(chunk: Seq<u8>, rest: Seq<u8>, limit: int)
    requires
        0 < chunk.len() <= usize::MAX,
        valid_utf8(chunk),
        0 <= limit,
    ensures
        ({
            let data = chunk_bytes(chunk) + rest;
            let n = chunk_bytes(chunk).len();
            &&& valid_utf8(data) == valid_utf8(rest)
            &&& ends_with_zero_chunk(data, 0) == ends_with_zero_chunk(rest, 0)
            &&& valid_utf8(rest) ==> chunks_below(data, 0, n + limit) == chunks_below(
                rest,
                0,
                limit,
            )
            &&& valid_utf8(rest) && chunks_in_place(data, 0) ==> chunks_in_place(rest, 0)
        }),
        !ends_with_zero_chunk(seq![], 0),
{
    let prefix = chunk_bytes(chunk);
    let data = prefix + rest;
    let n = prefix.len() as int;
    lemma_chunk_is_text(chunk);
    if valid_utf8(rest) {
        valid_utf8_concat(prefix, rest);
    }
    if valid_utf8(data) {
        let end = data.skip(n - 1);
        assert(data[n - 1] == prefix[n - 1] && prefix[n - 1] == crlf()[1]);
        lemma_cut_before_control(data, n - 1);
        assert(end[0] == 10);
        assert(pop_first_scalar(end) =~= rest);
    }
    assert(data.skip(0) =~= prefix + rest);
    lemma_chunk_at(data, 0, chunk, rest);
    lemma_behind(prefix, rest, 0, limit);
    if valid_utf8(rest) {
        is_char_boundary_iff_not_is_continuation_byte(data, 0);
        if chunks_in_place(data, 0) {
            lemma_behind(prefix, rest, 0, usize::MAX - n);
            lemma_below(rest, 0, usize::MAX - n, usize::MAX as int);
        }
    }
}

/// A body is walked by its size lines: a line that is read as zero, with white space around
/// it or not, makes it complete; one that is read as another number leads past as many bytes
/// and a line end on each side; one that is no number, and a missing line end, leave it
/// incomplete.
pub proof fn law_size_lines_lead_on(line: Seq<char>, rest: Seq<u8>, open_end: Seq<char>)
    requires
        is_line_text(line),
        is_line_text(open_end),
    ensures
        ({
            let data = encode_utf8(line) + crlf() + rest;
            match usize_value(trim(line), 16) {
                None => !ends_with_zero_chunk(data, 0),
                Some(size) => if size == 0 {
                    ends_with_zero_chunk(data, 0)
                } else if size + 2 <= rest.len() {
                    ends_with_zero_chunk(data, 0) == ends_with_zero_chunk(rest.skip(size as int + 2), 0)
                } else {
                    !ends_with_zero_chunk(data, 0)
                },
            }
        }),
        !ends_with_zero_chunk(encode_utf8(open_end), 0),
{
    let size_line = encode_utf8(line);
    let data = size_line + crlf() + rest;
    let k = size_line.len() as int;
    lemma_plain_byte_absent(line, 13u8);
    lemma_symbol_not_found(size_line, crlf());
    lemma_find_after_piece(size_line, crlf(), rest);
    assert(data.skip(0) =~= data);
    assert(data.subrange(0, k) =~= size_line);
    encode_utf8_decode_utf8(line);
    assert(chunk_at(data, 0) == match usize_value(trim(line), 16) {
        None => None::<(int, nat)>,
        Some(size) => Some((k, size)),
    });
    if let Some(size) = usize_value(trim(line), 16) {
        if size != 0 {
            let next = k + 2 + size + 2;
            assert(after_chunk(0, (k, size)) == next);
            assert(ends_with_zero_chunk(data, 0) == ends_with_zero_chunk(data, next));
            if size + 2 <= rest.len() {
                let prefix = data.take(next);
                let tail = rest.skip(size as int + 2);
                assert(data =~= prefix + tail);
                lemma_behind(prefix, tail, 0, 0);
            }
        }
    }
    let bytes = encode_utf8(open_end);
    lemma_plain_byte_absent(open_end, 13u8);
    lemma_symbol_not_found(bytes, crlf());
    assert(bytes.skip(0) =~= bytes);
}

/// A walk over the size lines keeps in place as long as each one begins where a character
/// begins and can be reached by a machine index; it ends at a line of size zero, at one that
/// is no number, where a line end is missing and behind the last byte.
pub proof fn law_walks_keep_to_characters(
    data: Seq<u8>,
    pos: int,
    line: Seq<char>,
    rest: Seq<u8>,
    open_end: Seq<char>,
)
    requires
        0 <= pos,
        is_line_text(line),
        is_line_text(open_end),
    ensures
        pos >= data.len() ==> chunks_in_place(data, pos),
        pos < data.len() && !is_char_boundary(data, pos) ==> !chunks_in_place(data, pos),
        pos < data.len() && is_char_boundary(data, pos) && data.skip(pos) == encode_utf8(open_end)
            ==> chunks_in_place(data, pos),
        pos < data.len() && is_char_boundary(data, pos) && data.skip(pos) == encode_utf8(line)
            + crlf() + rest ==> match usize_value(trim(line), 16) {
            None => chunks_in_place(data, pos),
            Some(size) => {
                let next = pos + encode_utf8(line).len() + 2 + size + 2;
                chunks_in_place(data, pos) <==> size == 0 || next <= usize::MAX
                    && chunks_in_place(data, next)
            },
        },
{
    if pos < data.len() && data.skip(pos) == encode_utf8(open_end) {
        lemma_plain_byte_absent(open_end, 13u8);
        lemma_symbol_not_found(data.skip(pos), crlf());
    }
    if pos < data.len() && data.skip(pos) == encode_utf8(line) + crlf() + rest {
        let size_line = encode_utf8(line);
        let k = size_line.len() as int;
        lemma_plain_byte_absent(line, 13u8);
        lemma_symbol_not_found(size_line, crlf());
        lemma_find_after_piece(size_line, crlf(), rest);
        assert(data.subrange(pos, pos + k) =~= data.skip(pos).take(k));
        assert(data.skip(pos).take(k) =~= size_line);
        encode_utf8_decode_utf8(line);
        assert(chunk_at(data, pos) == match usize_value(trim(line), 16) {
            None => None::<(int, nat)>,
            Some(size) => Some((k, size)),
        });
    }
}

} // verus!
