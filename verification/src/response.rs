//! Responses: their parts, and how they are written.
use vstd::prelude::*;
use vstd::utf8::encode_utf8;

use crate::date::{current_date, http_date, LAST_SECOND};
use crate::numbers::{decimal, write_decimal, write_length};
use crate::status::StatusCode;
use crate::table::{put, TextMap};
use crate::text::is_line_text;

verus! {

/// The content type of the server's own pages.
pub const HTML: &'static str = "text/html; charset=utf-8";

/// The content type of plain text.
pub const PLAIN: &'static str = "text/plain; charset=utf-8";

/// What a response says; its headers are listed in the order in which they are sent.
#[verifier::ext_equal]
pub struct ResponseView {
    pub status: StatusCode,
    pub content_type: Seq<char>,
    pub body: Seq<char>,
    pub headers: Seq<(Seq<char>, Seq<char>)>,
}

/// A response.
pub struct HttpResponse {
    pub status: StatusCode,
    pub content_type: String,
    pub body: String,
    pub headers: TextMap<String>,
}

impl View for HttpResponse {
    type V = ResponseView;

    open spec fn view(&self) -> ResponseView {
        ResponseView {
            status: self.status,
            content_type: self.content_type@,
            body: self.body@,
            headers: self.headers.listing(),
        }
    }
}

/// A page of the server's own, without further headers.
pub open spec fn page(status: StatusCode, body: Seq<char>) -> ResponseView {
    ResponseView { status, content_type: HTML@, body, headers: seq![] }
}

/// The response with one more header, or with another value for a header that it has.
pub open spec fn with_header(r: ResponseView, name: Seq<char>, value: Seq<char>) -> ResponseView {
    ResponseView { headers: put(r.headers, name, value), ..r }
}

/// The lines of the listed headers.
pub open spec fn header_lines(headers: Seq<(Seq<char>, Seq<char>)>) -> Seq<char>
    decreases headers.len(),
{
    if headers.len() == 0 {
        seq![]
    } else {
        header_lines(headers.drop_last()) + headers.last().0 + ": "@ + headers.last().1 + "\r\n"@
    }
}

/// What stands before the blank line of a response, with the line end before it.
pub open spec fn response_head(r: ResponseView, date: Seq<char>) -> Seq<char> {
    "HTTP/1.1 "@ + r.status.line() + "\r\nServer: RustServer/1.0\r\nDate: "@ + date
        + "\r\nContent-Type: "@ + r.content_type + "\r\nContent-Length: "@ + decimal(
        encode_utf8(r.body).len() as int,
    ) + "\r\n"@ + header_lines(r.headers)
}

/// The text of a response.
pub open spec fn response_text(r: ResponseView, date: Seq<char>) -> Seq<char> {
    response_head(r, date) + "\r\n"@ + r.body
}

/// The body of an error page.
pub open spec fn error_body(status: StatusCode) -> Seq<char> {
    "<html><head><title>Error "@ + decimal(status.number()) + "</title></head><body><h1>"@
        + status.line() + "</h1><p>"@ + status.explanation() + "</p></body></html>"@
}

impl HttpResponse {
    /// A page of the server's own.
    pub fn html(status: StatusCode, body: String) -> (r: HttpResponse)
        ensures
            r@ == page(status, body@),
    {
        HttpResponse { status, content_type: HTML.to_string(), body, headers: TextMap::new() }
    }

    /// Adds a header, or changes its value.
    pub fn set_header(&mut self, name: &str, value: String)
        ensures
            final(self)@ == with_header(old(self)@, name@, value@),
            final(self).headers@ == old(self).headers@.insert(name@, value@),
    {
        self.headers.insert(name.to_string(), value);
    }
}

/// Writes the lines of the headers.
fn write_headers(headers: &TextMap<String>) -> (r: String)
    ensures
        r@ == header_lines(headers.listing()),
{
    let mut out = String::new();
    let mut i: usize = 0;
    let ghost all = headers.listing();
    assert(all.take(0) =~= seq![]);
    while i < headers.len()
        invariant
            all == headers.listing(),
            i <= all.len(),
            out@ == header_lines(all.take(i as int)),
        decreases all.len() - i,
    {
        assert(all.take(i + 1).drop_last() =~= all.take(i as int));
        out.append(headers.key_at(i));
        out.append(": ");
        out.append(headers.value_at(i).as_str());
        out.append("\r\n");
        i += 1;
    }
    assert(all.take(i as int) =~= all);
    out
}

/// Writes a response with the given date line.
pub fn render_response(response: &HttpResponse, date: &str) -> (r: String)
    ensures
        r@ == response_text(response@, date@),
{
    let mut out = String::new();
    out.append("HTTP/1.1 ");
    assert(out@ =~= "HTTP/1.1 "@);
    out.append(response.status.to_string());
    out.append("\r\nServer: RustServer/1.0\r\nDate: ");
    out.append(date);
    out.append("\r\nContent-Type: ");
    out.append(response.content_type.as_str());
    out.append("\r\nContent-Length: ");
    out.append(write_length(response.body.as_str().as_bytes().len()).as_str());
    out.append("\r\n");
    out.append(write_headers(&response.headers).as_str());
    assert(out@ =~= response_head(response@, date@));
    out.append("\r\n");
    out.append(response.body.as_str());
    out
}

/// Writes a response that is sent now.
pub fn render_current(response: &HttpResponse) -> (r: String)
    ensures
        exists|seconds: i64|
            0 <= seconds <= LAST_SECOND && r@ == response_text(
                response@,
                #[trigger] http_date(seconds),
            ) && is_line_text(http_date(seconds)),
{
    let date = current_date();
    render_response(response, date.as_str())
}

/// The page for an error.
pub fn create_error_page(status: StatusCode) -> (r: HttpResponse)
    ensures
        r@ == page(status, error_body(status)),
{
    let mut body = String::new();
    body.append("<html><head><title>Error ");
    assert(body@ =~= "<html><head><title>Error "@);
    body.append(write_decimal(status.code() as i64).as_str());
    body.append("</title></head><body><h1>");
    body.append(status.to_string());
    body.append("</h1><p>");
    body.append(status.describe());
    body.append("</p></body></html>");
    HttpResponse::html(status, body)
}

/// The page that acknowledges a complete request, whatever its bytes.
pub fn process_request(_buffer: &[u8]) -> (r: HttpResponse)
    ensures
        r@ == page(
            StatusCode::OK,
            "<html><body><h1>Hello from Rust Server!</h1><p>Your request was received.</p></body></html>"@,
        ),
{
    HttpResponse::html(
        StatusCode::OK,
        "<html><body><h1>Hello from Rust Server!</h1><p>Your request was received.</p></body></html>".to_string(),
    )
}

} // verus!
