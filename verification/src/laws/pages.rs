//! What the pages of the server show, whatever is asked for.
use vstd::prelude::*;

use crate::config::{upload_limit, Config, SettingValue};
use crate::connection::ReadOutcome;
use crate::date::{formatted_utc, http_date};
use crate::laws::numbers::law_numbers_are_written_by_places;
use crate::laws::paths::{is_piece, law_extension_follows_the_last_dot, law_no_dot_no_extension};
use crate::multipart::{uploaded_files, MultipartError, UploadView};
use crate::numbers::decimal;
use crate::pages::{
    delete_reply, file_reply, get_reply, post_reply, upload_done, upload_failed, upload_links,
    GetView, PostView,
};
use crate::path::extension;
use crate::request::{request_in, RequestView};
use crate::response::{error_body, page, ResponseView};
use crate::search::begins_with;
use crate::server::{
    chosen_id, client_action, handled, script_failed, timeout_page, visits_before, with_session,
    ClientView, HandledView,
};
use crate::session::{Moment, SessionView};
use crate::status::StatusCode;
use crate::text::lowercase;

verus! {

/// A page of HTML with no headers of its own.
pub open spec fn html_page(status: StatusCode, body: Seq<char>) -> ResponseView {
    ResponseView { status, content_type: "text/html; charset=utf-8"@, body, headers: seq![] }
}

/// Each status has the number and the line that HTTP gives it, and an error its explanation.
pub proof fn law_statuses_are_those_of_http(status: StatusCode)
    ensures
        (status.number(), status.line(), status.explanation()) == match status {
            StatusCode::OK => (200int, "200 OK"@, ""@),
            StatusCode::BadRequest => (
                400int,
                "400 Bad Request"@,
                "The request could not be understood by the server."@,
            ),
            StatusCode::Forbidden => (
                403int,
                "403 Forbidden"@,
                "You don't have permission to access this resource."@,
            ),
            StatusCode::NotFound => (
                404int,
                "404 Not Found"@,
                "The requested resource could not be found."@,
            ),
            StatusCode::MethodNotAllowed => (
                405int,
                "405 Method Not Allowed"@,
                "The requested method is not allowed for this resource."@,
            ),
            StatusCode::PayloadTooLarge => (
                413int,
                "413 Payload Too Large"@,
                "The request payload is too large."@,
            ),
            StatusCode::InternalServerError => (
                500int,
                "500 Internal Server Error"@,
                "An internal server error occurred."@,
            ),
        },
{
}

/// An error page shows the number of its status in the title, its line as the heading, and
/// its explanation.
pub proof fn law_error_page_shows_its_status(status: StatusCode)
    ensures
        page(status, error_body(status)) == html_page(
            status,
            "<html><head><title>Error "@ + decimal(status.number())
                + "</title></head><body><h1>"@ + status.line() + "</h1><p>"@ + status.explanation()
                + "</p></body></html>"@,
        ),
{
}

/// A GET request for the start page is told its number of visits; the other pages are the
/// same for everybody, and what is neither a page nor below the path of uploads is not found.
pub proof fn law_pages_are_shown(path: Seq<char>, count: int)
    ensures
        get_reply("/"@, count) == GetView::Page(
            html_page(
                StatusCode::OK,
                "<html><body><h1>Welcome to Rust Server!</h1><p>You have visited this page "@
                    + decimal(count) + " times.</p></body></html>"@,
            ),
        ),
        get_reply("/about"@, count) == GetView::Page(
            html_page(StatusCode::OK, "<html><body><h1>About Page</h1></body></html>"@),
        ),
        get_reply("/upload"@, count) == GetView::Page(
            html_page(
                StatusCode::OK,
                "<html><body><h1>Upload a file</h1><form action=\"/upload\" method=\"post\" enctype=\"multipart/form-data\"><input type=\"file\" name=\"file\" /><input type=\"submit\" value=\"Upload\" /></form></body></html>"@,
            ),
        ),
        path != "/"@ && path != "/about"@ && path != "/upload"@ && !begins_with(
            path,
            "/uploads/"@,
        ) ==> get_reply(path, count) == GetView::Page(
            html_page(StatusCode::NotFound, "<html><body><h1>404 Not Found</h1></body></html>"@),
        ),
{
    reveal_strlit("/");
    reveal_strlit("/about");
    reveal_strlit("/upload");
    assert("/"@.len() == 1);
    assert("/about"@[1] == 'a' && "/upload"@[1] == 'u');
}

/// A file is shown with its text unchanged, under the type of its extension in either case:
/// HTML, style sheets, scripts and JSON have their own, and every other extension is plain
/// text.
pub proof fn law_files_are_shown_by_extension(base: Seq<char>, ext: Seq<char>, text: Seq<char>)
    requires
        base.len() > 0,
        base.last() != '/',
        ext.len() > 0,
        !ext.contains('.'),
        is_piece(ext),
    ensures
        ({
            let shown = file_reply(base + "."@ + ext, Some(text));
            let e = lowercase(ext);
            &&& shown.status == StatusCode::OK
            &&& shown.body == text
            &&& shown.headers == Seq::<(Seq<char>, Seq<char>)>::empty()
            &&& shown.content_type == "text/html; charset=utf-8"@ <==> e == "html"@ || e == "htm"@
            &&& shown.content_type == "text/css; charset=utf-8"@ <==> e == "css"@
            &&& shown.content_type == "application/javascript; charset=utf-8"@ <==> e == "js"@
            &&& shown.content_type == "application/json; charset=utf-8"@ <==> e == "json"@
            &&& shown.content_type == "text/plain; charset=utf-8"@ <==> e != "html"@ && e
                != "htm"@ && e != "css"@ && e != "js"@ && e != "json"@
        }),
{
    law_extension_follows_the_last_dot(base, ext);
    lemma_types_differ();
    reveal_strlit("html");
    reveal_strlit("htm");
    reveal_strlit("css");
    reveal_strlit("js");
    reveal_strlit("json");
    assert("html"@.len() == 4 && "json"@.len() == 4 && "htm"@.len() == 3 && "css"@.len() == 3
        && "js"@.len() == 2);
    assert("html"@[0] == 'h' && "json"@[0] == 'j' && "htm"@[0] == 'h' && "css"@[0] == 'c');
}

/// The content types differ from one another.
proof fn lemma_types_differ()
    ensures
        "text/html; charset=utf-8"@ != "text/css; charset=utf-8"@,
        "text/html; charset=utf-8"@ != "text/plain; charset=utf-8"@,
        "text/html; charset=utf-8"@ != "application/javascript; charset=utf-8"@,
        "text/html; charset=utf-8"@ != "application/json; charset=utf-8"@,
        "text/css; charset=utf-8"@ != "text/plain; charset=utf-8"@,
        "text/css; charset=utf-8"@ != "application/javascript; charset=utf-8"@,
        "text/css; charset=utf-8"@ != "application/json; charset=utf-8"@,
        "text/plain; charset=utf-8"@ != "application/javascript; charset=utf-8"@,
        "text/plain; charset=utf-8"@ != "application/json; charset=utf-8"@,
        "application/javascript; charset=utf-8"@ != "application/json; charset=utf-8"@,
{
    reveal_strlit("text/html; charset=utf-8");
    reveal_strlit("text/css; charset=utf-8");
    reveal_strlit("text/plain; charset=utf-8");
    reveal_strlit("application/javascript; charset=utf-8");
    reveal_strlit("application/json; charset=utf-8");
    assert("text/html; charset=utf-8"@[5] == 'h');
    assert("text/css; charset=utf-8"@[5] == 'c');
    assert("text/plain; charset=utf-8"@[5] == 'p');
    assert("application/javascript; charset=utf-8"@[5] == 'c');
    assert("application/json; charset=utf-8"@[5] == 'c');
    assert("application/javascript; charset=utf-8"@[0] == 'a');
    assert("application/json; charset=utf-8"@[0] == 'a');
    assert("text/css; charset=utf-8"@[0] == 't');
    assert("application/javascript; charset=utf-8"@[13] == 'a');
    assert("application/json; charset=utf-8"@[13] == 's');
}

/// A file whose name has no extension is plain text, and a file that could not be read is not
/// found.
pub proof fn law_other_files_are_plain_or_missing(
    dir: Seq<char>,
    name: Seq<char>,
    hidden: bool,
    text: Seq<char>,
    path: Seq<char>,
)
    requires
        dir.len() == 0 || dir.last() == '/',
        name.len() > 0,
        !name.contains('.'),
        is_piece(name),
    ensures
        file_reply(
            dir + if hidden {
                "."@ + name
            } else {
                name
            },
            Some(text),
        ) == (ResponseView {
            status: StatusCode::OK,
            content_type: "text/plain; charset=utf-8"@,
            body: text,
            headers: seq![],
        }),
        file_reply(path, None) == html_page(
            StatusCode::NotFound,
            "<html><head><title>Error 404</title></head><body><h1>404 Not Found</h1><p>The requested resource could not be found.</p></body></html>"@,
        ),
{
    law_no_dot_no_extension(dir, name, hidden);
    reveal_strlit("html");
    reveal_strlit("htm");
    reveal_strlit("css");
    reveal_strlit("js");
    reveal_strlit("json");
    assert(lowercase(Seq::<char>::empty()) =~= Seq::<char>::empty());
    lemma_not_found_page();
}

/// The text of the page for what is not found.
proof fn lemma_not_found_page()
    ensures
        error_body(StatusCode::NotFound)
            == "<html><head><title>Error 404</title></head><body><h1>404 Not Found</h1><p>The requested resource could not be found.</p></body></html>"@,
{
    reveal_strlit("<html><head><title>Error ");
    reveal_strlit("</title></head><body><h1>");
    reveal_strlit("</h1><p>");
    reveal_strlit("</p></body></html>");
    reveal_strlit("404 Not Found");
    reveal_strlit("The requested resource could not be found.");
    reveal_strlit(
        "<html><head><title>Error 404</title></head><body><h1>404 Not Found</h1><p>The requested resource could not be found.</p></body></html>",
    );
    law_numbers_are_written_by_places(40, 4);
    law_numbers_are_written_by_places(4, 0);
    law_numbers_are_written_by_places(4, 4);
    reveal_strlit("0123456789");
    assert(decimal(404) =~= seq!['4', '0', '4']);
    assert(error_body(StatusCode::NotFound)
        =~= "<html><head><title>Error 404</title></head><body><h1>404 Not Found</h1><p>The requested resource could not be found.</p></body></html>"@);
}

/// A POST request without files is told its path and the number of bytes of its body.
pub proof fn law_post_is_measured(request: RequestView, limit: usize)
    requires
        !request.headers.contains_key("content-type"@) || !begins_with(
            request.headers["content-type"@],
            "multipart/form-data"@,
        ),
    ensures
        post_reply(request, limit) == PostView::Page(
            html_page(
                StatusCode::OK,
                "<html><body><h1>POST Request Received</h1><p>Path: "@ + request.path
                    + "</p><p>Received data length: "@ + decimal(request.body.len() as int)
                    + " bytes</p></body></html>"@,
            ),
        ),
{
}

/// A POST request with files is refused over the limit, is told why its files could not be
/// found, and otherwise has exactly the files kept that stand in its body.
pub proof fn law_posted_files_are_kept_or_refused(request: RequestView, limit: usize)
    requires
        request.headers.contains_key("content-type"@),
        begins_with(request.headers["content-type"@], "multipart/form-data"@),
    ensures
        request.body.len() > limit ==> post_reply(request, limit) == PostView::Page(
            html_page(
                StatusCode::PayloadTooLarge,
                "<html><body><h1>413 Payload Too Large</h1></body></html>"@,
            ),
        ),
        request.body.len() <= limit ==> match uploaded_files(
            request.body,
            request.headers["content-type"@],
        ) {
            Ok(files) => post_reply(request, limit) == PostView::Save(files),
            Err(MultipartError::NoBoundary) => post_reply(request, limit) == PostView::Page(
                html_page(
                    StatusCode::InternalServerError,
                    "<html><body><h1>500</h1><p>Error saving upload: "@
                        + "No boundary in content-type"@ + "</p></body></html>"@,
                ),
            ),
            Err(MultipartError::NoParts) => post_reply(request, limit) == PostView::Page(
                html_page(
                    StatusCode::InternalServerError,
                    "<html><body><h1>500</h1><p>Error saving upload: "@
                        + "No multipart parts found"@ + "</p></body></html>"@,
                ),
            ),
        },
{
}

/// The page after an upload lists a link for each file, in their order, and the page for a
/// failure shows the message.
pub proof fn law_upload_page_links_each_file(
    files: Seq<UploadView>,
    file: UploadView,
    message: Seq<char>,
)
    ensures
        upload_done(seq![]) == html_page(
            StatusCode::OK,
            "<html><body><h1>Upload Successful</h1><ul>"@ + "</ul></body></html>"@,
        ),
        ({
            let end = "</ul></body></html>"@;
            let before = upload_done(files);
            let after = upload_done(files.push(file));
            &&& after == html_page(StatusCode::OK, after.body)
            &&& before.body == before.body.take(before.body.len() - end.len()) + end
            &&& after.body == before.body.take(before.body.len() - end.len())
                + "<li><a href=\"/uploads/"@ + file.name + "\">"@ + file.name + "</a></li>"@ + end
        }),
        upload_failed(message) == html_page(
            StatusCode::InternalServerError,
            "<html><body><h1>500</h1><p>Error saving upload: "@ + message + "</p></body></html>"@,
        ),
{
    let start = "<html><body><h1>Upload Successful</h1><ul>"@;
    let end = "</ul></body></html>"@;
    assert(start + upload_links(seq![]) + end =~= start + end);
    let before = upload_done(files);
    let after = upload_done(files.push(file));
    assert(files.push(file).drop_last() =~= files);
    assert(before.body.take(before.body.len() - end.len()) =~= start + upload_links(files));
    assert(before.body =~= before.body.take(before.body.len() - end.len()) + end);
    assert(after.body =~= before.body.take(before.body.len() - end.len())
        + "<li><a href=\"/uploads/"@ + file.name + "\">"@ + file.name + "</a></li>"@ + end);
}

/// A DELETE request is acknowledged with its path; pages with a message show it.
pub proof fn law_acknowledgements_show_what_they_are_about(path: Seq<char>, message: Seq<char>)
    ensures
        delete_reply(path) == html_page(
            StatusCode::OK,
            "<html><body><h1>DELETE Request Received</h1><p>Resource path: "@ + path
                + "</p></body></html>"@,
        ),
        script_failed(message) == html_page(
            StatusCode::InternalServerError,
            "<html><body><h1>500</h1><p>CGI execution error: "@ + message + "</p></body></html>"@,
        ),
        timeout_page() == html_page(
            StatusCode::InternalServerError,
            "<html><body><h1>408 Request Timeout</h1><p>The request has timed out.</p></body></html>"@,
        ),
{
}

/// A request that no script answers is answered by its method, in its session: a GET request
/// as the next visit, a POST request within the limit of its server, a DELETE request with an
/// acknowledgement, and any other with a refusal.
pub proof fn law_requests_are_answered_by_method(
    config: Config,
    sessions: Map<Seq<char>, SessionView>,
    request: RequestView,
    server_idx: int,
    moment: Moment,
)
    ensures
        ({
            let answer = handled(config, sessions, request, server_idx, moment);
            let id = chosen_id(sessions, request, moment);
            let got = get_reply(request.path, visits_before(sessions, request) + 1);
            let posted = post_reply(request, upload_limit(&config, server_idx));
            &&& request.method is GET && got is Page ==> answer == HandledView::Respond(
                with_session(got->Page_0, id),
            )
            &&& request.method is GET && got is File ==> answer == (HandledView::Read {
                session_id: id,
                path: got->File_0,
            })
            &&& request.method is POST && posted is Page ==> answer == HandledView::Respond(
                with_session(posted->Page_0, id),
            )
            &&& request.method is POST && posted is Save ==> answer == (HandledView::Save {
                session_id: id,
                files: posted->Save_0,
            })
            &&& request.method is DELETE ==> answer == HandledView::Respond(
                with_session(delete_reply(request.path), id),
            )
            &&& request.method is UNSUPPORTED ==> answer == HandledView::Respond(
                with_session(
                    html_page(
                        StatusCode::MethodNotAllowed,
                        "<html><body><h1>405 Method Not Allowed</h1></body></html>"@,
                    ),
                    id,
                ),
            )
        }),
{
}

/// What is read from a connection decides what happens: nothing and a failure close it, a
/// request is handled for the server of the connection, and other bytes are refused.
pub proof fn law_bytes_are_handled_or_refused(bytes: Vec<u8>, server_idx: usize)
    ensures
        bytes@.len() == 0 ==> client_action(ReadOutcome::Data(bytes), server_idx)
            == ClientView::Close,
        client_action(ReadOutcome::Failed, server_idx) == ClientView::Close,
        client_action(ReadOutcome::WouldBlock, server_idx) == ClientView::Wait,
        bytes@.len() > 0 ==> match request_in(bytes@) {
            Some(request) => client_action(ReadOutcome::Data(bytes), server_idx)
                == ClientView::Handle(request, server_idx as int),
            None => client_action(ReadOutcome::Data(bytes), server_idx) == ClientView::Reply(
                html_page(
                    StatusCode::BadRequest,
                    "<html><body><h1>400 Bad Request</h1></body></html>"@,
                ),
            ),
        },
{
}

/// The limit on the body of an upload is the whole number among the settings of its server;
/// without one it is the limit for all servers, and without that ten mebibytes.
pub proof fn law_limit_of_the_server_counts_first(config: Config, server_idx: int, n: i64)
    ensures
        ({
            let limit = upload_limit(&config, server_idx);
            let own = if 0 <= server_idx < config.servers@.len() {
                match config.servers@[server_idx].settings {
                    Some(settings) => if settings@.contains_key("client_max_body_size"@) {
                        settings@["client_max_body_size"@]
                    } else {
                        SettingValue::Other
                    },
                    None => SettingValue::Other,
                }
            } else {
                SettingValue::Other
            };
            &&& own == SettingValue::Integer(n) ==> limit == n as usize
            &&& own == SettingValue::Integer(n) && 0 <= n <= usize::MAX ==> limit == n
            &&& own is Other && config.global is Some
                && config.global->0.client_max_body_size is Some ==> limit
                == config.global->0.client_max_body_size->0
            &&& own is Other && (config.global is None
                || config.global->0.client_max_body_size is None) ==> limit == 10 * 1024 * 1024
        }),
{
}

/// A date is written in universal time as HTTP asks for.
pub proof fn law_dates_are_those_of_http(seconds: i64)
    ensures
        http_date(seconds) == formatted_utc(seconds, "%a, %d %b %Y %H:%M:%S GMT"@),
{
}

/// The type of a file goes by its extension in either case, however its path is written.
pub proof fn law_types_go_by_the_extension(path: Seq<char>, ext: Seq<char>, text: Seq<char>)
    requires
        extension(path) == Some(ext) || (extension(path) is None && ext.len() == 0),
    ensures
        ({
            let e = lowercase(ext);
            file_reply(path, Some(text)) == (ResponseView {
                status: StatusCode::OK,
                content_type: if e == "css"@ {
                    "text/css; charset=utf-8"@
                } else if e == "json"@ {
                    "application/json; charset=utf-8"@
                } else if e == "js"@ {
                    "application/javascript; charset=utf-8"@
                } else if e == "htm"@ || e == "html"@ {
                    "text/html; charset=utf-8"@
                } else {
                    "text/plain; charset=utf-8"@
                },
                body: text,
                headers: seq![],
            })
        }),
{
    if ext.len() == 0 {
        assert(ext =~= seq![]);
    }
    reveal_strlit("html");
    reveal_strlit("htm");
    reveal_strlit("css");
    reveal_strlit("js");
    reveal_strlit("json");
    assert("html"@.len() == 4 && "json"@.len() == 4 && "htm"@.len() == 3 && "css"@.len() == 3
        && "js"@.len() == 2);
    assert("html"@[0] == 'h' && "json"@[0] == 'j' && "htm"@[0] == 'h' && "css"@[0] == 'c');
}

} // verus!
