//! Uploads: the files in a body of the type `multipart/form-data`.
use vstd::prelude::*;
use vstd::slice::{slice_subrange, slice_to_vec};
use vstd::utf8::{decode_utf8, encode_utf8, valid_utf8};

use crate::path::{join, joined};
use crate::request::{blank_line, crlf, lines_of};
use crate::search::{
    begins_with, find, find_from, lemma_find_from, matches_at, occurs_at, position, position_from,
    split, split_all, starts_with, views,
};
use crate::text::{
    chars_of, lowercase, only, replace, replaced, string_of, strip_copies, text_from_utf8,
    to_lowercase, trim, trim_char, trim_start, trimmed, trimmed_of, trimmed_start, trimmed_start_of,
    white, without_copies,
};

verus! {

/// The directory that holds the uploaded files.
pub const UPLOAD_DIR: &'static str = "uploads";

/// Why the files of an upload cannot be told.
#[derive(Debug, PartialEq, Eq, Copy, Clone, Structural)]
pub enum MultipartError {
    /// The content type names no boundary.
    NoBoundary,
    /// The body has fewer than two boundary lines.
    NoParts,
}

impl MultipartError {
    /// What the error says.
    pub open spec fn text(self) -> Seq<char> {
        match self {
            MultipartError::NoBoundary => "No boundary in content-type"@,
            MultipartError::NoParts => "No multipart parts found"@,
        }
    }

    /// The text of the error.
    pub fn message(&self) -> (s: &str)
        ensures
            s@ == self.text(),
    {
        match self {
            MultipartError::NoBoundary => "No boundary in content-type",
            MultipartError::NoParts => "No multipart parts found",
        }
    }
}

/// What an uploaded file is.
#[verifier::ext_equal]
pub struct UploadView {
    pub name: Seq<char>,
    pub data: Seq<u8>,
}

/// An uploaded file: the name under which it is kept, and its bytes.
pub struct Upload {
    pub name: String,
    pub data: Vec<u8>,
}

impl View for Upload {
    type V = UploadView;

    open spec fn view(&self) -> UploadView {
        UploadView { name: self.name@, data: self.data@ }
    }
}

/// The files that a list of uploads stands for.
pub open spec fn upload_views(files: Seq<Upload>) -> Seq<UploadView> {
    Seq::new(files.len(), |i: int| files[i]@)
}

/// The boundary that a piece of a content type gives.
pub open spec fn boundary_in_piece(piece: Seq<char>) -> Option<Seq<char>> {
    let piece = trim(piece);
    if begins_with(piece, "boundary="@) {
        Some(trim_char(strip_copies(piece, "boundary="@), '"'))
    } else {
        None
    }
}

/// The boundary that the first piece with one gives.
pub open spec fn boundary_in_pieces(pieces: Seq<Seq<char>>) -> Option<Seq<char>>
    decreases pieces.len(),
{
    if pieces.len() == 0 {
        None
    } else {
        match boundary_in_piece(pieces[0]) {
            Some(b) => Some(b),
            None => boundary_in_pieces(pieces.skip(1)),
        }
    }
}

/// The boundary of a content type, whose pieces are separated by semicolons.
pub open spec fn boundary_of(content_type: Seq<char>) -> Option<Seq<char>> {
    boundary_in_pieces(split(content_type, ";"@))
}

/// The bytes that mark a boundary in a body: two hyphens and the boundary.
pub open spec fn marker_of(boundary: Seq<char>) -> Seq<u8> {
    encode_utf8("--"@ + boundary)
}

/// Where the marker stands in a body at `from` or later, taken from the left without
/// overlap.
pub open spec fn marker_places(body: Seq<u8>, marker: Seq<u8>, from: int) -> Seq<int>
    decreases body.len() - from,
    when marker.len() > 0 && from >= 0
{
    match find_from(body, marker, from) {
        None => seq![],
        Some(i) => {
            proof {
                lemma_find_from(body, marker, from);
            }
            seq![i] + marker_places(body, marker, i + marker.len())
        },
    }
}

/// The part of a body from `start` to `end`, without a line end at its start.
pub open spec fn part_between(body: Seq<u8>, start: int, end: int) -> Seq<u8> {
    if occurs_at(body, crlf(), start) {
        body.subrange(start + 2, end)
    } else {
        body.subrange(start, end)
    }
}

/// A setting's value ends here: nothing follows, or a semicolon, white space aside.
pub open spec fn ends_setting(rest: Seq<char>) -> bool {
    trim_start(rest, white()).len() == 0 || trim_start(rest, white())[0] == ';'
}

/// The first quote, at `from` or later, with which a setting's value ends.
pub open spec fn closing_quote(s: Seq<char>, from: int) -> Option<int>
    decreases s.len() - from,
{
    if from < 0 || from >= s.len() {
        None
    } else if s[from] == '"' && ends_setting(s.skip(from + 1)) {
        Some(from)
    } else {
        closing_quote(s, from + 1)
    }
}

/// The text of a setting's value, without quotes at its ends. A value that begins with a
/// quote goes as far as the quote that closes it, where there is one.
pub open spec fn unquoted(value: Seq<char>) -> Seq<char> {
    if value.len() > 0 && value[0] == '"' {
        match closing_quote(value, 1) {
            Some(j) => trim_char(value.take(j), '"'),
            None => trim_char(value, '"'),
        }
    } else {
        trim_char(value, '"')
    }
}

/// The file name that a line of a part's head gives.
pub open spec fn name_in_line(line: Seq<char>) -> Option<Seq<char>> {
    if begins_with(lowercase(line), "content-disposition:"@) {
        match find(line, "filename="@) {
            None => None,
            Some(i) => {
                let name = trim_char(unquoted(trim(line.skip(i + 9))), ' ');
                if name.len() > 0 {
                    Some(name)
                } else {
                    None
                }
            },
        }
    } else {
        None
    }
}

/// The file name that the last line with one gives.
pub open spec fn name_in_lines(lines: Seq<Seq<char>>) -> Option<Seq<char>>
    decreases lines.len(),
{
    if lines.len() == 0 {
        None
    } else {
        match name_in_line(lines.last()) {
            Some(name) => Some(name),
            None => name_in_lines(lines.drop_last()),
        }
    }
}

/// The file name that the head of a part gives.
pub open spec fn name_in_head(head: Seq<u8>) -> Option<Seq<char>> {
    if valid_utf8(head) {
        name_in_lines(lines_of(decode_utf8(head)))
    } else {
        None
    }
}

/// The name under which a file is kept: two dots in a row become an underscore, and slashes
/// at the start are dropped.
pub open spec fn safe_name(name: Seq<char>) -> Seq<char> {
    trim_start(replace(name, ".."@, "_"@), only('/'))
}

/// Bytes without a line end at their end.
pub open spec fn without_last_crlf(data: Seq<u8>) -> Seq<u8> {
    if occurs_at(data, crlf(), data.len() - 2) {
        data.take(data.len() - 2)
    } else {
        data
    }
}

/// The file that a part holds, if its head names one and something is left of the name under
/// which it would be kept.
pub open spec fn file_in_part(part: Seq<u8>) -> Option<UploadView> {
    match find(part, blank_line()) {
        None => None,
        Some(i) => match name_in_head(part.take(i)) {
            None => None,
            Some(name) => if safe_name(name).len() > 0 {
                Some(
                    UploadView { name: safe_name(name), data: without_last_crlf(part.skip(i + 4)) },
                )
            } else {
                None
            },
        },
    }
}

/// The marker that ends at `end` closes the form: two hyphens stand directly after it.
pub open spec fn is_closing(body: Seq<u8>, end: int) -> bool {
    occurs_at(body, seq![45u8, 45u8], end)
}

/// The files of the parts from the `k`-th marker on, up to the marker that closes the form.
pub open spec fn files_from(body: Seq<u8>, marker_len: int, places: Seq<int>, k: int) -> Seq<
    UploadView,
>
    decreases places.len() - k,
{
    if k < 0 || k + 1 >= places.len() {
        seq![]
    } else {
        let part = part_between(body, places[k] + marker_len, places[k + 1]);
        if is_closing(body, places[k] + marker_len) {
            seq![]
        } else {
            let rest = files_from(body, marker_len, places, k + 1);
            match file_in_part(part) {
                Some(file) => seq![file] + rest,
                None => rest,
            }
        }
    }
}

/// The files of an upload.
pub open spec fn uploaded_files(body: Seq<u8>, content_type: Seq<char>) -> Result<
    Seq<UploadView>,
    MultipartError,
> {
    match boundary_of(content_type) {
        None => Err(MultipartError::NoBoundary),
        Some(boundary) => {
            let marker = marker_of(boundary);
            let places = marker_places(body, marker, 0);
            if places.len() < 2 {
                Err(MultipartError::NoParts)
            } else {
                Ok(files_from(body, marker.len() as int, places, 0))
            }
        },
    }
}

/// The path at which an uploaded file is kept.
pub open spec fn upload_path(name: Seq<char>) -> Seq<char> {
    joined(UPLOAD_DIR@, name)
}

/// The path at which an uploaded file is kept.
pub fn path_of_upload(name: &str) -> (r: String)
    ensures
        r@ == upload_path(name@),
{
    let dir = chars_of(UPLOAD_DIR);
    let rest = chars_of(name);
    string_of(join(dir.as_slice(), rest.as_slice()).as_slice())
}

/// Takes the quotes off the value of a setting.
fn unquote<'a>(value: &'a [char]) -> (r: &'a [char])
    ensures
        r@ == unquoted(value@),
{
    if value.len() > 0 && value[0] == '"' {
        let total: usize = value.len();
        let mut j: usize = 1;
        while j < total
            invariant
                1 <= j <= total,
                total == value@.len(),
                value@[0] == '"',
                closing_quote(value@, 1) == closing_quote(value@, j as int),
            decreases total - j,
        {
            if value[j] == '"' {
                let rest = trimmed_start(slice_subrange(value, j + 1, total));
                assert(value@.skip(j + 1) =~= value@.subrange(j + 1, total as int));
                if rest.len() == 0 || rest[0] == ';' {
                    let quoted = slice_subrange(value, 0, j);
                    assert(quoted@ =~= value@.take(j as int));
                    return trimmed_of(quoted, '"');
                }
            }
            j += 1;
        }
    }
    trimmed_of(value, '"')
}

/// Reads the boundary of a content type.
fn read_boundary(content_type: &str) -> (r: Option<Vec<char>>)
    ensures
        match r {
            Some(b) => boundary_of(content_type@) == Some(b@),
            None => boundary_of(content_type@) is None,
        },
{
    let chars = chars_of(content_type);
    let semicolon = chars_of(";");
    let prefix = chars_of("boundary=");
    proof {
        reveal_strlit(";");
    }
    let pieces = split_all(chars.as_slice(), semicolon.as_slice());
    let ghost all = views(pieces@);
    let mut i: usize = 0;
    assert(all.skip(0) =~= all);
    while i < pieces.len()
        invariant
            i <= pieces@.len(),
            all == views(pieces@),
            prefix@ == "boundary="@,
            boundary_of(content_type@) == boundary_in_pieces(all.skip(i as int)),
        decreases pieces@.len() - i,
    {
        assert(all.skip(i as int)[0] == pieces@[i as int]@);
        assert(all.skip(i as int).skip(1) =~= all.skip(i + 1));
        let piece = trimmed(pieces[i]);
        if starts_with(piece, prefix.as_slice()) {
            let name = trimmed_of(without_copies(piece, prefix.as_slice()), '"');
            return Some(slice_to_vec(name));
        }
        i += 1;
    }
    None
}

/// Finds the markers in a body.
fn find_markers(body: &[u8], marker: &[u8]) -> (r: Vec<usize>)
    requires
        marker@.len() > 0,
    ensures
        r@.map_values(|p: usize| p as int) == marker_places(body@, marker@, 0),
{
    let mut places: Vec<usize> = Vec::new();
    let total: usize = body.len();
    let mut from: usize = 0;
    assert(places@.map_values(|p: usize| p as int) + marker_places(body@, marker@, 0)
        =~= marker_places(body@, marker@, 0));
    loop
        invariant
            marker@.len() > 0,
            total == body@.len(),
            from <= total,
            marker_places(body@, marker@, 0) == places@.map_values(|p: usize| p as int)
                + marker_places(body@, marker@, from as int),
        decreases total - from,
    {
        proof {
            lemma_find_from(body@, marker@, from as int);
        }
        match position_from(body, marker, from) {
            None => {
                assert(marker_places(body@, marker@, 0) =~= places@.map_values(
                    |p: usize| p as int,
                ));
                return places;
            },
            Some(i) => {
                let ghost before = places@.map_values(|p: usize| p as int);
                places.push(i);
                assert(places@.map_values(|p: usize| p as int) =~= before.push(i as int));
                assert(before.push(i as int) + marker_places(body@, marker@, i + marker@.len())
                    =~= before + marker_places(body@, marker@, from as int));
                from = i + marker.len();
            },
        }
    }
}

/// Reads the file name from the head of a part.
fn read_name(head: &[u8]) -> (r: Option<Vec<char>>)
    ensures
        match r {
            Some(name) => name_in_head(head@) == Some(name@),
            None => name_in_head(head@) is None,
        },
{
    let text = match text_from_utf8(head) {
        None => {
            return None;
        },
        Some(text) => text,
    };
    let chars = chars_of(text.as_str());
    let line_end = chars_of("\r\n");
    let disposition = chars_of("content-disposition:");
    let key = chars_of("filename=");
    proof {
        reveal_strlit("\r\n");
        reveal_strlit("filename=");
    }
    let lines = split_all(chars.as_slice(), line_end.as_slice());
    let ghost all = views(lines@);
    let mut i: usize = lines.len();
    assert(all.take(i as int) =~= all);
    while i > 0
        invariant
            i <= lines@.len(),
            all == views(lines@),
            disposition@ == "content-disposition:"@,
            key@ == "filename="@,
            key@.len() == 9,
            name_in_head(head@) == name_in_lines(all.take(i as int)),
        decreases i,
    {
        let line = lines[i - 1];
        let total: usize = line.len();
        assert(all.take(i as int).last() == line@);
        assert(all.take(i as int).drop_last() =~= all.take(i - 1));
        let lower = chars_of(to_lowercase(string_of(line).as_str()).as_str());
        if starts_with(lower.as_slice(), disposition.as_slice()) {
            if let Some(at) = position(line, key.as_slice()) {
                let tail = slice_subrange(line, at + 9, total);
                assert(tail@ =~= line@.skip(at + 9));
                let name = trimmed_of(unquote(trimmed(tail)), ' ');
                if name.len() > 0 {
                    return Some(slice_to_vec(name));
                }
            }
        }
        i -= 1;
    }
    None
}

/// Reads the file that a part holds.
fn read_file(part: &[u8]) -> (r: Option<Upload>)
    ensures
        match r {
            Some(file) => file_in_part(part@) == Some(file@),
            None => file_in_part(part@) is None,
        },
{
    let total: usize = part.len();
    let blank: Vec<u8> = vec![13u8, 10u8, 13u8, 10u8];
    let line_end: Vec<u8> = vec![13u8, 10u8];
    assert(blank@ =~= blank_line());
    assert(line_end@ =~= crlf());
    let i: usize = match position(part, blank.as_slice()) {
        None => {
            return None;
        },
        Some(i) => i,
    };
    assert(part@.take(i as int) =~= part@.subrange(0, i as int));
    let name = match read_name(slice_subrange(part, 0, i)) {
        None => {
            return None;
        },
        Some(name) => name,
    };
    let tail = slice_subrange(part, i + 4, total);
    assert(tail@ =~= part@.skip(i + 4));
    let mut data = slice_to_vec(tail);
    let n: usize = tail.len();
    if n >= 2 && matches_at(tail, line_end.as_slice(), n - 2) {
        data.truncate(n - 2);
        assert(data@ =~= tail@.take(n - 2));
    }
    let dots = chars_of("..");
    let underscore = chars_of("_");
    proof {
        reveal_strlit("..");
    }
    let kept = replaced(name.as_slice(), dots.as_slice(), underscore.as_slice());
    let kept = trimmed_start_of(kept.as_slice(), '/');
    if kept.len() == 0 {
        return None;
    }
    Some(Upload { name: string_of(kept), data })
}

/// A line end cannot stand where a marker begins, nor one byte before it.
pub proof fn lemma_part_bounds(body: Seq<u8>, marker: Seq<u8>, places: Seq<int>, from: int, k: int)
    requires
        marker.len() > 0,
        marker[0] == 45,
        from >= 0,
        places == marker_places(body, marker, from),
        0 <= k < places.len(),
    ensures
        from <= places[k],
        occurs_at(body, marker, places[k]),
        k + 1 < places.len() ==> places[k] + marker.len() <= places[k + 1],
        k + 1 < places.len() && occurs_at(body, crlf(), places[k] + marker.len() as int)
            ==> places[k] + marker.len() + 2 <= places[k + 1],
    decreases k,
{
    lemma_find_from(body, marker, from);
    let i = find_from(body, marker, from)->0;
    let rest = marker_places(body, marker, i + marker.len());
    assert(places == seq![i] + rest);
    if k == 0 {
        if places.len() > 1 {
            lemma_part_bounds_first(body, marker, rest, i + marker.len());
            let start = i + marker.len();
            assert(places[1] == rest[0]);
            if occurs_at(body, crlf(), start) {
                assert(body.subrange(start, start + 2)[0] == body[start]);
                assert(body.subrange(start, start + 2)[1] == body[start + 1]);
                assert(body.subrange(places[1], places[1] + marker.len())[0] == body[places[1]]);
            }
        }
    } else {
        assert(places[k] == rest[k - 1]);
        if k + 1 < places.len() {
            assert(places[k + 1] == rest[k]);
        }
        lemma_part_bounds(body, marker, rest, i + marker.len(), k - 1);
    }
}

/// The first marker found lies at the start of the search or later.
proof fn lemma_part_bounds_first(body: Seq<u8>, marker: Seq<u8>, places: Seq<int>, from: int)
    requires
        marker.len() > 0,
        from >= 0,
        places == marker_places(body, marker, from),
        places.len() > 0,
    ensures
        from <= places[0],
        occurs_at(body, marker, places[0]),
{
    lemma_find_from(body, marker, from);
}

/// A marker begins with a hyphen.
pub proof fn lemma_marker(boundary: Seq<char>)
    ensures
        marker_of(boundary).len() > 0,
        marker_of(boundary)[0] == 45,
{
    reveal_strlit("--");
    let s = "--"@ + boundary;
    assert(s[0] == '-');
    assert(45u32 & 0x7f == 45u32) by (bit_vector);
    assert(vstd::utf8::encode_scalar(45) =~= seq![45u8]);
}

/// Finds the files of an upload. What is to be written is told in the order of the parts.
pub fn save_multipart_files(body: &[u8], content_type: &str) -> (r: Result<
    Vec<Upload>,
    MultipartError,
>)
    ensures
        match r {
            Ok(files) => uploaded_files(body@, content_type@) == Ok::<
                Seq<UploadView>,
                MultipartError,
            >(upload_views(files@)),
            Err(e) => uploaded_files(body@, content_type@) == Err::<
                Seq<UploadView>,
                MultipartError,
            >(e),
        },
{
    let boundary = match read_boundary(content_type) {
        None => {
            return Err(MultipartError::NoBoundary);
        },
        Some(b) => b,
    };
    let mut line = String::new();
    line.append("--");
    line.append(string_of(boundary.as_slice()).as_str());
    assert(line@ =~= "--"@ + boundary@);
    let marker = line.as_str().as_bytes();
    proof {
        lemma_marker(boundary@);
    }
    let places = find_markers(body, marker);
    let ghost spots = marker_places(body@, marker@, 0);
    if places.len() < 2 {
        return Err(MultipartError::NoParts);
    }
    let line_end: Vec<u8> = vec![13u8, 10u8];
    let hyphens: Vec<u8> = vec![45u8, 45u8];
    assert(line_end@ =~= crlf());
    assert(hyphens@ =~= seq![45u8, 45u8]);
    let total: usize = body.len();
    let mut saved: Vec<Upload> = Vec::new();
    let mut k: usize = 0;
    assert(upload_views(saved@) + files_from(body@, marker@.len() as int, spots, 0)
        =~= files_from(body@, marker@.len() as int, spots, 0));
    let last: usize = places.len() - 1;
    while k < last
        invariant
            k <= last,
            last + 1 == places@.len(),
            marker@.len() > 0,
            marker@[0] == 45,
            total == body@.len(),
            line_end@ == crlf(),
            hyphens@ == seq![45u8, 45u8],
            spots == marker_places(body@, marker@, 0),
            places@.map_values(|p: usize| p as int) == spots,
            uploaded_files(body@, content_type@) == Ok::<Seq<UploadView>, MultipartError>(
                files_from(body@, marker@.len() as int, spots, 0),
            ),
            files_from(body@, marker@.len() as int, spots, 0) == upload_views(saved@)
                + files_from(body@, marker@.len() as int, spots, k as int),
        decreases places@.len() - k,
    {
        proof {
            lemma_part_bounds(body@, marker@, spots, 0, k as int);
            lemma_part_bounds(body@, marker@, spots, 0, k + 1);
            assert(spots[k as int] == places@[k as int]);
            assert(spots[k + 1] == places@[k + 1]);
        }
        let start: usize = places[k] + marker.len();
        let end: usize = places[k + 1];
        if matches_at(body, hyphens.as_slice(), start) {
            assert(upload_views(saved@) =~= files_from(body@, marker@.len() as int, spots, 0));
            return Ok(saved);
        }
        let part = if matches_at(body, line_end.as_slice(), start) {
            slice_subrange(body, start + 2, end)
        } else {
            slice_subrange(body, start, end)
        };
        let ghost before = upload_views(saved@);
        let ghost rest = files_from(body@, marker@.len() as int, spots, k + 1);
        match read_file(part) {
            Some(file) => {
                let ghost view = file@;
                saved.push(file);
                assert(upload_views(saved@) =~= before.push(view));
                assert(before.push(view) + rest =~= before + (seq![view] + rest));
            },
            None => {},
        }
        k += 1;
    }
    assert(upload_views(saved@) =~= files_from(body@, marker@.len() as int, spots, 0));
    Ok(saved)
}

} // verus!
