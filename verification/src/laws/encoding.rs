//! How UTF-8 goes with joining texts and with plain control characters.
use vstd::prelude::*;
use vstd::utf8::{
    decode_utf8, encode_scalar, encode_utf8, encode_utf8_decode_utf8, encode_utf8_valid_utf8,
    is_ascii_chars_encode_utf8,
};

use crate::laws::splitting::joined_by;
use crate::request::{crlf, lemma_cut_before_control};

verus! {

/// The encoding of two texts is the encodings one after the other.
pub proof fn lemma_encode_concat(a: Seq<char>, b: Seq<char>)
    ensures
        encode_utf8(a + b) == encode_utf8(a) + encode_utf8(b),
    decreases a.len(),
{
    if a.len() == 0 {
        assert(a + b =~= b);
        assert(encode_utf8(a) + encode_utf8(b) =~= encode_utf8(b));
    } else {
        assert((a + b).drop_first() =~= a.drop_first() + b);
        lemma_encode_concat(a.drop_first(), b);
        assert((a + b)[0] == a[0]);
        assert(encode_scalar(a[0] as u32) + (encode_utf8(a.drop_first()) + encode_utf8(b))
            =~= encode_utf8(a) + encode_utf8(b));
    }
}

/// A plain byte in an encoding stands for its character.
pub proof fn lemma_plain_byte(s: Seq<char>, j: int)
    requires
        0 <= j < encode_utf8(s).len(),
        encode_utf8(s)[j] < 0x80,
    ensures
        s.contains(encode_utf8(s)[j] as char),
{
    let bytes = encode_utf8(s);
    let b = bytes[j];
    encode_utf8_valid_utf8(s);
    encode_utf8_decode_utf8(s);
    lemma_cut_before_control(bytes, j);
    let before = decode_utf8(bytes.take(j));
    let tail = bytes.skip(j);
    assert(tail[0] == b);
    assert((b & 0x7f) == b) by (bit_vector)
        requires
            b < 0x80,
    ;
    assert(decode_utf8(tail)[0] == b as char);
    assert(s[before.len() as int] == b as char);
}

/// The encoding of a text has no plain byte whose character the text does not have.
pub proof fn lemma_plain_byte_absent(s: Seq<char>, b: u8)
    requires
        b < 0x80,
        !s.contains(b as char),
    ensures
        !encode_utf8(s).contains(b),
{
    let bytes = encode_utf8(s);
    if bytes.contains(b) {
        let j = choose|j: int| 0 <= j < bytes.len() && bytes[j] == b;
        lemma_plain_byte(s, j);
    }
}

/// The encoding of a line end.
pub proof fn lemma_encode_line_end()
    ensures
        encode_utf8("\r\n"@) == crlf(),
{
    reveal_strlit("\r\n");
    is_ascii_chars_encode_utf8("\r\n"@);
    assert(encode_utf8("\r\n"@) =~= crlf());
}

/// The encodings of texts.
pub open spec fn encodings(pieces: Seq<Seq<char>>) -> Seq<Seq<u8>> {
    Seq::new(pieces.len(), |i: int| encode_utf8(pieces[i]))
}

/// The encoding of joined lines is the joined encodings.
pub proof fn lemma_encode_joined(pieces: Seq<Seq<char>>)
    ensures
        encode_utf8(joined_by(pieces, "\r\n"@)) == joined_by(encodings(pieces), crlf()),
    decreases pieces.len(),
{
    if pieces.len() == 0 {
    } else if pieces.len() == 1 {
        assert(encodings(pieces)[0] == encode_utf8(pieces[0]));
    } else {
        let rest = pieces.skip(1);
        lemma_encode_joined(rest);
        lemma_encode_line_end();
        lemma_encode_concat(pieces[0], "\r\n"@);
        lemma_encode_concat(pieces[0] + "\r\n"@, joined_by(rest, "\r\n"@));
        assert(encodings(pieces).skip(1) =~= encodings(rest));
    }
}

/// A text that is not empty has an encoding that is not empty.
pub proof fn lemma_encoding_not_empty(s: Seq<char>)
    requires
        s.len() > 0,
    ensures
        encode_utf8(s).len() > 0,
{
}

} // verus!
