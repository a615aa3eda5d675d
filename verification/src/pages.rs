//! What the server answers to each method.
use vstd::prelude::*;
use vstd::slice::slice_subrange;

use crate::config::{upload_limit, Config};
use crate::multipart::{
    path_of_upload, save_multipart_files, upload_path, upload_views, uploaded_files, Upload,
    UploadView,
};
use crate::numbers::{decimal, i32_value, read_i32, write_decimal, write_length};
use crate::path::{extension, extension_or_empty, is_below, stays_below};
use crate::request::{HttpRequest, RequestView};
use crate::response::{
    create_error_page, error_body, page, HttpResponse, ResponseView, HTML, PLAIN,
};
use crate::search::{begins_with, starts_with};
use crate::session::{Session, SessionView};
use crate::status::StatusCode;
use crate::table::TextMap;
use crate::text::{chars_of, lowercase, same_text, string_of, to_lowercase};

verus! {

/// The visits that a session has counted; what cannot be read as a number counts as none.
pub open spec fn visits(data: Map<Seq<char>, Seq<char>>) -> int {
    if data.contains_key("visit_count"@) {
        match i32_value(data["visit_count"@]) {
            Some(n) => n,
            None => 0,
        }
    } else {
        0
    }
}

/// The session after one more visit.
pub open spec fn visited(s: SessionView) -> SessionView {
    SessionView { data: s.data.insert("visit_count"@, decimal(visits(s.data) + 1)), ..s }
}

/// The content type of a file with the given extension.
pub open spec fn type_for(ext: Seq<char>) -> Seq<char> {
    if ext == "html"@ || ext == "htm"@ {
        HTML@
    } else if ext == "css"@ {
        "text/css; charset=utf-8"@
    } else if ext == "js"@ {
        "application/javascript; charset=utf-8"@
    } else if ext == "json"@ {
        "application/json; charset=utf-8"@
    } else {
        PLAIN@
    }
}

/// What a GET request is answered with.
#[verifier::ext_equal]
pub enum GetView {
    Page(ResponseView),
    File(Seq<char>),
}

/// What a GET request is answered with.
pub enum GetReply {
    /// A page.
    Page(HttpResponse),
    /// The file at a path.
    File(String),
}

impl View for GetReply {
    type V = GetView;

    open spec fn view(&self) -> GetView {
        match self {
            GetReply::Page(response) => GetView::Page(response@),
            GetReply::File(path) => GetView::File(path@),
        }
    }
}

/// The answer to a GET request for `path` on the visit with the number `count`. Of files,
/// only those below the directory of uploads are shown.
pub open spec fn get_reply(path: Seq<char>, count: int) -> GetView {
    if path == "/"@ {
        GetView::Page(
            page(
                StatusCode::OK,
                "<html><body><h1>Welcome to Rust Server!</h1><p>You have visited this page "@
                    + decimal(count) + " times.</p></body></html>"@,
            ),
        )
    } else if path == "/about"@ {
        GetView::Page(page(StatusCode::OK, "<html><body><h1>About Page</h1></body></html>"@))
    } else if path == "/upload"@ {
        GetView::Page(
            page(
                StatusCode::OK,
                "<html><body><h1>Upload a file</h1><form action=\"/upload\" method=\"post\" enctype=\"multipart/form-data\"><input type=\"file\" name=\"file\" /><input type=\"submit\" value=\"Upload\" /></form></body></html>"@,
            ),
        )
    } else if begins_with(path, "/uploads/"@) {
        if stays_below(path.skip(9)) {
            GetView::File(upload_path(path.skip(9)))
        } else {
            GetView::Page(page(StatusCode::NotFound, error_body(StatusCode::NotFound)))
        }
    } else {
        GetView::Page(page(StatusCode::NotFound, "<html><body><h1>404 Not Found</h1></body></html>"@))
    }
}

/// The answer that shows the file at a path, given its text if it could be read.
pub open spec fn file_reply(path: Seq<char>, contents: Option<Seq<char>>) -> ResponseView {
    match contents {
        Some(text) => ResponseView {
            status: StatusCode::OK,
            content_type: type_for(
                lowercase(
                    match extension(path) {
                        Some(e) => e,
                        None => seq![],
                    },
                ),
            ),
            body: text,
            headers: seq![],
        },
        None => page(StatusCode::NotFound, error_body(StatusCode::NotFound)),
    }
}

/// What a POST request is answered with.
#[verifier::ext_equal]
pub enum PostView {
    Page(ResponseView),
    Save(Seq<UploadView>),
}

/// What a POST request is answered with.
pub enum PostReply {
    /// A page.
    Page(HttpResponse),
    /// A page after these files have been kept.
    Save(Vec<Upload>),
}

impl View for PostReply {
    type V = PostView;

    open spec fn view(&self) -> PostView {
        match self {
            PostReply::Page(response) => PostView::Page(response@),
            PostReply::Save(files) => PostView::Save(upload_views(files@)),
        }
    }
}

/// The request carries files.
pub open spec fn is_upload(request: RequestView) -> bool {
    request.headers.contains_key("content-type"@) && begins_with(
        request.headers["content-type"@],
        "multipart/form-data"@,
    )
}

/// The page for an upload that could not be kept.
pub open spec fn upload_failed(message: Seq<char>) -> ResponseView {
    page(
        StatusCode::InternalServerError,
        "<html><body><h1>500</h1><p>Error saving upload: "@ + message + "</p></body></html>"@,
    )
}

/// The lines that link to uploaded files.
pub open spec fn upload_links(files: Seq<UploadView>) -> Seq<char>
    decreases files.len(),
{
    if files.len() == 0 {
        seq![]
    } else {
        upload_links(files.drop_last()) + "<li><a href=\"/uploads/"@ + files.last().name + "\">"@
            + files.last().name + "</a></li>"@
    }
}

/// The page for an upload that has been kept.
pub open spec fn upload_done(files: Seq<UploadView>) -> ResponseView {
    page(
        StatusCode::OK,
        "<html><body><h1>Upload Successful</h1><ul>"@ + upload_links(files)
            + "</ul></body></html>"@,
    )
}

/// The answer to a POST request: files within the limit are kept, other bodies are only
/// measured.
pub open spec fn post_reply(request: RequestView, limit: usize) -> PostView {
    if is_upload(request) {
        if request.body.len() > limit {
            PostView::Page(
                page(
                    StatusCode::PayloadTooLarge,
                    "<html><body><h1>413 Payload Too Large</h1></body></html>"@,
                ),
            )
        } else {
            match uploaded_files(request.body, request.headers["content-type"@]) {
                Ok(files) => PostView::Save(files),
                Err(e) => PostView::Page(upload_failed(e.text())),
            }
        }
    } else {
        PostView::Page(
            page(
                StatusCode::OK,
                "<html><body><h1>POST Request Received</h1><p>Path: "@ + request.path
                    + "</p><p>Received data length: "@ + decimal(request.body.len() as int)
                    + " bytes</p></body></html>"@,
            ),
        )
    }
}

/// The answer to a DELETE request for `path`: it is only acknowledged.
pub open spec fn delete_reply(path: Seq<char>) -> ResponseView {
    page(
        StatusCode::OK,
        "<html><body><h1>DELETE Request Received</h1><p>Resource path: "@ + path
            + "</p></body></html>"@,
    )
}

/// Reads the visits that a session has counted.
pub fn count_visits(session: &Session) -> (n: i32)
    ensures
        n == visits(session@.data),
{
    match session.data.get("visit_count") {
        Some(text) => {
            let chars = chars_of(text.as_str());
            match read_i32(chars.as_slice()) {
                Some(n) => n,
                None => 0,
            }
        },
        None => 0,
    }
}

/// Answers a GET request and counts the visit.
pub fn handle_get(request: &HttpRequest, session: &mut Session) -> (r: GetReply)
    requires
        visits(old(session)@.data) < i32::MAX,
    ensures
        r@ == get_reply(request@.path, visits(old(session)@.data) + 1),
        final(session)@ == visited(old(session)@),
{
    let count: i32 = count_visits(session) + 1;
    session.data.insert("visit_count".to_string(), write_decimal(count as i64));
    let path = request.path.as_str();
    if same_text(path, "/") {
        let mut body = String::new();
        body.append(
            "<html><body><h1>Welcome to Rust Server!</h1><p>You have visited this page ",
        );
        assert(body@
            =~= "<html><body><h1>Welcome to Rust Server!</h1><p>You have visited this page "@);
        body.append(write_decimal(count as i64).as_str());
        body.append(" times.</p></body></html>");
        GetReply::Page(HttpResponse::html(StatusCode::OK, body))
    } else if same_text(path, "/about") {
        GetReply::Page(
            HttpResponse::html(
                StatusCode::OK,
                "<html><body><h1>About Page</h1></body></html>".to_string(),
            ),
        )
    } else if same_text(path, "/upload") {
        GetReply::Page(
            HttpResponse::html(
                StatusCode::OK,
                "<html><body><h1>Upload a file</h1><form action=\"/upload\" method=\"post\" enctype=\"multipart/form-data\"><input type=\"file\" name=\"file\" /><input type=\"submit\" value=\"Upload\" /></form></body></html>".to_string(),
            ),
        )
    } else {
        let chars = chars_of(path);
        let prefix = chars_of("/uploads/");
        proof {
            reveal_strlit("/uploads/");
        }
        if starts_with(chars.as_slice(), prefix.as_slice()) {
            let rel = slice_subrange(chars.as_slice(), 9, chars.len());
            assert(rel@ =~= path@.skip(9));
            if is_below(rel) {
                GetReply::File(path_of_upload(string_of(rel).as_str()))
            } else {
                GetReply::Page(create_error_page(StatusCode::NotFound))
            }
        } else {
            GetReply::Page(
                HttpResponse::html(
                    StatusCode::NotFound,
                    "<html><body><h1>404 Not Found</h1></body></html>".to_string(),
                ),
            )
        }
    }
}

/// Shows the file at a path, given its text if it could be read.
pub fn show_file(path: &str, contents: Option<String>) -> (r: HttpResponse)
    ensures
        r@ == file_reply(
            path@,
            match contents {
                Some(text) => Some(text@),
                None => None,
            },
        ),
{
    match contents {
        None => create_error_page(StatusCode::NotFound),
        Some(text) => {
            let chars = chars_of(path);
            let ext_chars = extension_or_empty(chars.as_slice());
            let ext = to_lowercase(string_of(ext_chars.as_slice()).as_str());
            let e = ext.as_str();
            let content_type = if same_text(e, "html") || same_text(e, "htm") {
                HTML
            } else if same_text(e, "css") {
                "text/css; charset=utf-8"
            } else if same_text(e, "js") {
                "application/javascript; charset=utf-8"
            } else if same_text(e, "json") {
                "application/json; charset=utf-8"
            } else {
                PLAIN
            };
            HttpResponse {
                status: StatusCode::OK,
                content_type: content_type.to_string(),
                body: text,
                headers: TextMap::new(),
            }
        },
    }
}

/// Answers a POST request.
pub fn handle_post(
    request: &HttpRequest,
    _session: &mut Session,
    config: &Config,
    server_idx: usize,
) -> (r: PostReply)
    ensures
        r@ == post_reply(request@, upload_limit(config, server_idx as int)),
        *final(_session) == *old(_session),
{
    if let Some(content_type) = request.headers.get("content-type") {
        let type_chars = chars_of(content_type.as_str());
        let prefix = chars_of("multipart/form-data");
        if starts_with(type_chars.as_slice(), prefix.as_slice()) {
            if request.body.len() > config.body_limit(server_idx) {
                return PostReply::Page(
                    HttpResponse::html(
                        StatusCode::PayloadTooLarge,
                        "<html><body><h1>413 Payload Too Large</h1></body></html>".to_string(),
                    ),
                );
            }
            return match save_multipart_files(request.body.as_slice(), content_type.as_str()) {
                Ok(files) => PostReply::Save(files),
                Err(e) => PostReply::Page(upload_error(e.message())),
            };
        }
    }
    let mut body = String::new();
    body.append("<html><body><h1>POST Request Received</h1><p>Path: ");
    assert(body@ =~= "<html><body><h1>POST Request Received</h1><p>Path: "@);
    body.append(request.path.as_str());
    body.append("</p><p>Received data length: ");
    body.append(write_length(request.body.len()).as_str());
    body.append(" bytes</p></body></html>");
    PostReply::Page(HttpResponse::html(StatusCode::OK, body))
}

/// The page for an upload that could not be kept.
pub fn upload_error(message: &str) -> (r: HttpResponse)
    ensures
        r@ == upload_failed(message@),
{
    let mut body = String::new();
    body.append("<html><body><h1>500</h1><p>Error saving upload: ");
    assert(body@ =~= "<html><body><h1>500</h1><p>Error saving upload: "@);
    body.append(message);
    body.append("</p></body></html>");
    HttpResponse::html(StatusCode::InternalServerError, body)
}

/// The page for an upload that has been kept.
pub fn upload_success(files: &Vec<Upload>) -> (r: HttpResponse)
    ensures
        r@ == upload_done(upload_views(files@)),
{
    let mut body = String::new();
    body.append("<html><body><h1>Upload Successful</h1><ul>");
    let ghost start = "<html><body><h1>Upload Successful</h1><ul>"@;
    assert(body@ =~= start);
    let mut i: usize = 0;
    let ghost all = upload_views(files@);
    assert(all.take(0) =~= seq![]);
    assert(start + upload_links(all.take(0)) =~= start);
    while i < files.len()
        invariant
            i <= files@.len(),
            all == upload_views(files@),
            body@ == start + upload_links(all.take(i as int)),
        decreases files@.len() - i,
    {
        assert(all.take(i + 1).drop_last() =~= all.take(i as int));
        let name = files[i].name.as_str();
        body.append("<li><a href=\"/uploads/");
        body.append(name);
        body.append("\">");
        body.append(name);
        body.append("</a></li>");
        assert(body@ =~= start + upload_links(all.take(i + 1)));
        i += 1;
    }
    assert(all.take(i as int) =~= all);
    body.append("</ul></body></html>");
    HttpResponse::html(StatusCode::OK, body)
}

/// Answers a DELETE request.
pub fn handle_delete(request: &HttpRequest, _session: &mut Session) -> (r: HttpResponse)
    ensures
        r@ == delete_reply(request@.path),
        *final(_session) == *old(_session),
{
    let mut body = String::new();
    body.append("<html><body><h1>DELETE Request Received</h1><p>Resource path: ");
    assert(body@ =~= "<html><body><h1>DELETE Request Received</h1><p>Resource path: "@);
    body.append(request.path.as_str());
    body.append("</p></body></html>");
    HttpResponse::html(StatusCode::OK, body)
}

} // verus!
