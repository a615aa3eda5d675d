//! The server: its tables, and how it handles a request.
use std::collections::HashMap;
use vstd::prelude::*;
use vstd::std_specs::iter::IteratorSpec;

use crate::cgi::{
    begin_search, resume_after_probe, resume_after_run, search_begun, search_probed, search_ran,
    CgiStep, StepView,
};
use crate::config::{upload_limit, Config, RouteConfig};
use crate::connection::{Connection, Dispatch, ReadOutcome, Readiness};
use crate::cookies::{cookies_of, parse_cookies};
use crate::multipart::{upload_views, Upload, UploadView};
use crate::pages::{
    count_visits, delete_reply, file_reply, get_reply, handle_delete, handle_get, handle_post,
    post_reply, show_file, upload_done, upload_error, upload_failed, upload_success, visited, visits,
    GetReply, GetView, PostReply, PostView,
};
use crate::request::{parse_request, request_in, HttpMethod, HttpRequest, RequestView};
use crate::response::{page, with_header, HttpResponse, ResponseView};
use crate::session::{
    fresh_session, is_live, session_id, touched, Moment, SessionManager, SessionView, COOKIE_NAME,
};
use crate::status::StatusCode;
use crate::table::kept;

verus! {

/// The tables of the server.
pub struct Server {
    /// The open connections by their file descriptors.
    pub connections: HashMap<i32, Connection>,
    /// The server that each listener serves by default, by the listener's file descriptor.
    pub listener_map: HashMap<i32, usize>,
    pub session_manager: SessionManager,
    pub config: Config,
}

/// What to do after reading from a connection.
#[verifier::ext_equal]
pub enum ClientView {
    Close,
    Wait,
    Handle(RequestView, int),
    Reply(ResponseView),
}

/// What to do after reading from a connection.
pub enum ClientAction {
    /// Close the connection.
    Close,
    /// Wait for more.
    Wait,
    /// Handle a request for a server.
    Handle(HttpRequest, usize),
    /// Send a response.
    Reply(HttpResponse),
}

impl View for ClientAction {
    type V = ClientView;

    open spec fn view(&self) -> ClientView {
        match self {
            ClientAction::Close => ClientView::Close,
            ClientAction::Wait => ClientView::Wait,
            ClientAction::Handle(request, idx) => ClientView::Handle(request@, *idx as int),
            ClientAction::Reply(response) => ClientView::Reply(response@),
        }
    }
}

/// What to do after reading from a connection to the server `server_idx`.
pub open spec fn client_action(outcome: ReadOutcome, server_idx: usize) -> ClientView {
    match outcome {
        ReadOutcome::Data(bytes) => if bytes@.len() == 0 {
            ClientView::Close
        } else {
            match request_in(bytes@) {
                Some(request) => ClientView::Handle(request, server_idx as int),
                None => ClientView::Reply(
                    page(
                        StatusCode::BadRequest,
                        "<html><body><h1>400 Bad Request</h1></body></html>"@,
                    ),
                ),
            }
        },
        ReadOutcome::WouldBlock => ClientView::Wait,
        ReadOutcome::Failed => ClientView::Close,
    }
}

/// What a request is answered with.
#[verifier::ext_equal]
pub enum HandledView {
    Respond(ResponseView),
    Read { session_id: Seq<char>, path: Seq<char> },
    Save { session_id: Seq<char>, files: Seq<UploadView> },
}

/// What a request is answered with.
pub enum Handled {
    /// A response.
    Respond(HttpResponse),
    /// The file at a path.
    Read { session_id: String, path: String },
    /// A page after these files have been kept.
    Save { session_id: String, files: Vec<Upload> },
}

impl View for Handled {
    type V = HandledView;

    open spec fn view(&self) -> HandledView {
        match self {
            Handled::Respond(response) => HandledView::Respond(response@),
            Handled::Read { session_id, path } => HandledView::Read {
                session_id: session_id@,
                path: path@,
            },
            Handled::Save { session_id, files } => HandledView::Save {
                session_id: session_id@,
                files: upload_views(files@),
            },
        }
    }
}

/// The routes of a server; none where there is no such server.
pub open spec fn routes_of(config: Config, server_idx: int) -> Seq<RouteConfig> {
    if 0 <= server_idx < config.servers@.len() {
        config.servers@[server_idx].routes@
    } else {
        seq![]
    }
}

/// The first step of the search for a script that answers a request: scripts answer only
/// GET and POST.
pub open spec fn script_search(config: Config, request: RequestView, server_idx: int) -> StepView {
    match request.method {
        HttpMethod::GET | HttpMethod::POST => search_begun(
            routes_of(config, server_idx),
            request.path,
        ),
        _ => StepView::Nothing,
    }
}

/// The value of the session cookie that a request carries.
pub open spec fn offered_id(request: RequestView) -> Option<Seq<char>> {
    let cookies = cookies_of(request.headers);
    if cookies.contains_key(COOKIE_NAME@) {
        Some(cookies[COOKIE_NAME@])
    } else {
        None
    }
}

/// The request carries the identifier of a session that the server knows.
pub open spec fn is_known(sessions: Map<Seq<char>, SessionView>, request: RequestView) -> bool {
    offered_id(request) is Some && sessions.contains_key(offered_id(request)->0)
}

/// The session that handles a request: the one that it names, or else a new one.
pub open spec fn chosen_id(
    sessions: Map<Seq<char>, SessionView>,
    request: RequestView,
    moment: Moment,
) -> Seq<char> {
    if is_known(sessions, request) {
        offered_id(request)->0
    } else {
        session_id(moment)
    }
}

/// The sessions when a request is handled: its own one is used at that moment, and the ones
/// past the time limit are gone.
pub open spec fn sessions_ready(
    sessions: Map<Seq<char>, SessionView>,
    request: RequestView,
    moment: Moment,
) -> Map<Seq<char>, SessionView> {
    let id = chosen_id(sessions, request, moment);
    let own = if is_known(sessions, request) {
        touched(sessions[id], moment.now)
    } else {
        fresh_session(id, moment.now)
    };
    kept(sessions.insert(id, own), |s: SessionView| is_live(s, moment.now))
}

/// The sessions after a request has been handled: a GET request counts as a visit.
pub open spec fn sessions_after(
    sessions: Map<Seq<char>, SessionView>,
    request: RequestView,
    moment: Moment,
) -> Map<Seq<char>, SessionView> {
    let id = chosen_id(sessions, request, moment);
    let ready = sessions_ready(sessions, request, moment);
    if request.method is GET {
        ready.insert(id, visited(ready[id]))
    } else {
        ready
    }
}

/// The visits that the session of a request has counted.
pub open spec fn visits_before(
    sessions: Map<Seq<char>, SessionView>,
    request: RequestView,
) -> int {
    if is_known(sessions, request) {
        visits(sessions[offered_id(request)->0].data)
    } else {
        0
    }
}

/// The value of the header that hands a session identifier to the client.
pub open spec fn set_cookie(id: Seq<char>) -> Seq<char> {
    COOKIE_NAME@ + "="@ + id + "; Path=/; HttpOnly"@
}

/// The response with the session cookie.
pub open spec fn with_session(response: ResponseView, id: Seq<char>) -> ResponseView {
    with_header(response, "Set-Cookie"@, set_cookie(id))
}

/// What a request that no script answers is answered with.
pub open spec fn handled(
    config: Config,
    sessions: Map<Seq<char>, SessionView>,
    request: RequestView,
    server_idx: int,
    moment: Moment,
) -> HandledView {
    let id = chosen_id(sessions, request, moment);
    match request.method {
        HttpMethod::GET => match get_reply(request.path, visits_before(sessions, request) + 1) {
            GetView::Page(response) => HandledView::Respond(with_session(response, id)),
            GetView::File(path) => HandledView::Read { session_id: id, path },
        },
        HttpMethod::POST => match post_reply(request, upload_limit(&config, server_idx)) {
            PostView::Page(response) => HandledView::Respond(with_session(response, id)),
            PostView::Save(files) => HandledView::Save { session_id: id, files },
        },
        HttpMethod::DELETE => HandledView::Respond(with_session(delete_reply(request.path), id)),
        HttpMethod::UNSUPPORTED => HandledView::Respond(
            with_session(
                page(
                    StatusCode::MethodNotAllowed,
                    "<html><body><h1>405 Method Not Allowed</h1></body></html>"@,
                ),
                id,
            ),
        ),
    }
}

/// The session that is named in the answer of a script: whatever the request names, or else
/// a new one.
pub open spec fn script_session_id(request: RequestView, moment: Moment) -> Seq<char> {
    match offered_id(request) {
        Some(id) => id,
        None => session_id(moment),
    }
}

/// The sessions after a script has answered.
pub open spec fn sessions_after_script(
    sessions: Map<Seq<char>, SessionView>,
    request: RequestView,
    moment: Moment,
) -> Map<Seq<char>, SessionView> {
    match offered_id(request) {
        Some(_) => sessions,
        None => sessions.insert(
            session_id(moment),
            fresh_session(session_id(moment), moment.now),
        ),
    }
}

/// The page for a script that could not be run.
pub open spec fn script_failed(message: Seq<char>) -> ResponseView {
    page(
        StatusCode::InternalServerError,
        "<html><body><h1>500</h1><p>CGI execution error: "@ + message + "</p></body></html>"@,
    )
}

/// The page for a connection that has been idle for too long.
pub open spec fn timeout_page() -> ResponseView {
    page(
        StatusCode::InternalServerError,
        "<html><body><h1>408 Request Timeout</h1><p>The request has timed out.</p></body></html>"@,
    )
}

/// Writes the value of the header that hands a session identifier to the client.
fn write_cookie(id: &str) -> (r: String)
    ensures
        r@ == set_cookie(id@),
{
    let mut out = String::new();
    out.append(COOKIE_NAME);
    assert(out@ =~= COOKIE_NAME@);
    out.append("=");
    out.append(id);
    out.append("; Path=/; HttpOnly");
    out
}

/// Adds the session cookie to a response.
fn add_session(response: HttpResponse, id: &str) -> (r: HttpResponse)
    ensures
        r@ == with_session(response@, id@),
        r.headers@ == response.headers@.insert("Set-Cookie"@, set_cookie(id@)),
{
    let mut response = response;
    response.set_header("Set-Cookie", write_cookie(id));
    response
}

/// The page for a script that could not be run.
pub fn script_error(message: &str) -> (r: HttpResponse)
    ensures
        r@ == script_failed(message@),
{
    let mut body = String::new();
    body.append("<html><body><h1>500</h1><p>CGI execution error: ");
    assert(body@ =~= "<html><body><h1>500</h1><p>CGI execution error: "@);
    body.append(message);
    body.append("</p></body></html>");
    HttpResponse::html(StatusCode::InternalServerError, body)
}

/// The page for a connection that has been idle for too long.
pub fn timeout_response() -> (r: HttpResponse)
    ensures
        r@ == timeout_page(),
{
    HttpResponse::html(
        StatusCode::InternalServerError,
        "<html><body><h1>408 Request Timeout</h1><p>The request has timed out.</p></body></html>".to_string(),
    )
}

/// The response to a request for the file at a path, given its text if it could be read.
pub fn finish_read(session_id: &str, path: &str, contents: Option<String>) -> (r: HttpResponse)
    ensures
        r@ == with_session(
            file_reply(
                path@,
                match contents {
                    Some(text) => Some(text@),
                    None => None,
                },
            ),
            session_id@,
        ),
        r.headers@ == map!["Set-Cookie"@ => set_cookie(session_id@)],
{
    add_session(show_file(path, contents), session_id)
}

/// The response to an upload of these files, given the message of the error if they could
/// not be kept.
pub fn finish_save(session_id: &str, files: &Vec<Upload>, failure: Option<String>) -> (r:
    HttpResponse)
    ensures
        r@ == with_session(
            match failure {
                Some(message) => upload_failed(message@),
                None => upload_done(upload_views(files@)),
            },
            session_id@,
        ),
        r.headers@ == map!["Set-Cookie"@ => set_cookie(session_id@)],
{
    match failure {
        Some(message) => add_session(upload_error(message.as_str()), session_id),
        None => add_session(upload_success(files), session_id),
    }
}

/// The default server of a listener; the first server where the listener is not known.
pub open spec fn default_server(listeners: Map<i32, usize>, listener_fd: i32) -> usize {
    if listeners.contains_key(listener_fd) {
        listeners[listener_fd]
    } else {
        0
    }
}

impl Server {
    /// A server that listens nowhere yet.
    pub fn new(config: Config) -> (r: Server)
        ensures
            r.config == config,
            r.connections@ == Map::<i32, Connection>::empty(),
            r.listener_map@ == Map::<i32, usize>::empty(),
            r.session_manager@ == Map::<Seq<char>, SessionView>::empty(),
    {
        Server {
            connections: HashMap::new(),
            listener_map: HashMap::new(),
            session_manager: SessionManager::new(),
            config,
        }
    }

    /// Notes a listener that serves a server by default.
    pub fn add_listener(&mut self, listener_fd: i32, server_idx: usize)
        ensures
            final(self).listener_map@ == old(self).listener_map@.insert(listener_fd, server_idx),
            final(self).connections == old(self).connections,
            final(self).session_manager == old(self).session_manager,
            final(self).config == old(self).config,
    {
        broadcast use vstd::std_specs::hash::group_hash_axioms;

        self.listener_map.insert(listener_fd, server_idx);
    }

    /// Notes a connection that came in at a listener.
    pub fn accept_connection(&mut self, listener_fd: i32, fd: i32, now: u128)
        ensures
            final(self).connections@.dom() == old(self).connections@.dom().insert(fd),
            forall|other: i32| other != fd && old(self).connections@.contains_key(other)
                ==> #[trigger] final(self).connections@[other] == old(self).connections@[other],
            final(self).connections@[fd].last_activity == now,
            final(self).connections@[fd].server_idx == default_server(
                old(self).listener_map@,
                listener_fd,
            ),
            final(self).connections@[fd].buffer@ == Seq::<u8>::empty(),
            !final(self).connections@[fd].chunked,
            final(self).connections@[fd].content_length is None,
            !final(self).connections@[fd].request_complete,
            final(self).listener_map == old(self).listener_map,
            final(self).session_manager == old(self).session_manager,
            final(self).config == old(self).config,
    {
        broadcast use vstd::std_specs::hash::group_hash_axioms;

        let server_idx: usize = match self.listener_map.get(&listener_fd) {
            Some(idx) => *idx,
            None => 0,
        };
        let mut conn = Connection::new(now);
        conn.server_idx = server_idx;
        self.connections.insert(fd, conn);
    }

    /// Forgets a connection.
    pub fn remove_connection(&mut self, fd: i32)
        ensures
            final(self).connections@ == old(self).connections@.remove(fd),
            final(self).listener_map == old(self).listener_map,
            final(self).session_manager == old(self).session_manager,
            final(self).config == old(self).config,
    {
        broadcast use vstd::std_specs::hash::group_hash_axioms;

        self.connections.remove(&fd);
        assert(self.connections@ =~= old(self).connections@.remove(fd));
    }

    /// What to do about a file descriptor that has become ready.
    pub open spec fn dispatch_of(self, fd: i32, ready: Readiness) -> Dispatch {
        if self.listener_map@.contains_key(fd) {
            Dispatch::Accept
        } else if ready.error || ready.hangup {
            Dispatch::Remove
        } else if ready.readable {
            Dispatch::Read
        } else {
            Dispatch::Ignore
        }
    }

    /// Decides what to do about a file descriptor that has become ready.
    pub fn dispatch(&self, fd: i32, ready: Readiness) -> (r: Dispatch)
        ensures
            r == self.dispatch_of(fd, ready),
    {
        broadcast use vstd::std_specs::hash::group_hash_axioms;

        if self.listener_map.contains_key(&fd) {
            Dispatch::Accept
        } else if ready.error || ready.hangup {
            Dispatch::Remove
        } else if ready.readable {
            Dispatch::Read
        } else {
            Dispatch::Ignore
        }
    }

    /// Notes that there was something to read at a connection, and decides what to do.
    pub fn handle_client_data(&mut self, fd: i32, outcome: ReadOutcome, now: u128) -> (r:
        ClientAction)
        ensures
            old(self).connections@.contains_key(fd) ==> {
                &&& r@ == client_action(outcome, old(self).connections@[fd].server_idx)
                &&& final(self).connections@ == old(self).connections@.insert(
                    fd,
                    (Connection { last_activity: now, ..old(self).connections@[fd] }),
                )
            },
            !old(self).connections@.contains_key(fd) ==> {
                &&& r@ == ClientView::Wait
                &&& final(self).connections@ == old(self).connections@
            },
            final(self).listener_map == old(self).listener_map,
            final(self).session_manager == old(self).session_manager,
            final(self).config == old(self).config,
    {
        broadcast use vstd::std_specs::hash::group_hash_axioms;

        match self.connections.remove(&fd) {
            None => {
                assert(self.connections@ =~= old(self).connections@);
                ClientAction::Wait
            },
            Some(conn) => {
                let mut conn = conn;
                conn.last_activity = now;
                let server_idx: usize = conn.server_idx;
                self.connections.insert(fd, conn);
                assert(self.connections@ =~= old(self).connections@.insert(fd, conn));
                match outcome {
                    ReadOutcome::Data(bytes) => if bytes.len() == 0 {
                        ClientAction::Close
                    } else {
                        match parse_request(bytes.as_slice()) {
                            Some(request) => ClientAction::Handle(request, server_idx),
                            None => ClientAction::Reply(
                                HttpResponse::html(
                                    StatusCode::BadRequest,
                                    "<html><body><h1>400 Bad Request</h1></body></html>".to_string(),
                                ),
                            ),
                        }
                    },
                    ReadOutcome::WouldBlock => ClientAction::Wait,
                    ReadOutcome::Failed => ClientAction::Close,
                }
            },
        }
    }

    /// Begins to handle a request: scripts come first, for GET and POST.
    pub fn begin_request(&self, request: &HttpRequest, server_idx: usize) -> (r: CgiStep)
        ensures
            r@ == script_search(self.config, request@, server_idx as int),
    {
        match request.method {
            HttpMethod::GET | HttpMethod::POST => self.try_run_cgi(request, server_idx),
            _ => CgiStep::Nothing,
        }
    }

    /// Begins the search for a script that answers a request.
    pub fn try_run_cgi(&self, request: &HttpRequest, server_idx: usize) -> (r: CgiStep)
        ensures
            r@ == search_begun(routes_of(self.config, server_idx as int), request@.path),
    {
        if server_idx < self.config.servers.len() {
            begin_search(&self.config.servers[server_idx].routes, request.path.as_str())
        } else {
            CgiStep::Nothing
        }
    }

    /// Goes on with the search after it was found out whether the script of a route is a file.
    pub fn script_probed(
        &self,
        request: &HttpRequest,
        server_idx: usize,
        route: usize,
        is_file: bool,
    ) -> (r: CgiStep)
        requires
            route < routes_of(self.config, server_idx as int).len(),
            routes_of(self.config, server_idx as int)[route as int].root is Some,
        ensures
            r@ == search_probed(
                routes_of(self.config, server_idx as int),
                request@.path,
                request@.body,
                route as int,
                is_file,
            ),
    {
        resume_after_probe(
            &self.config.servers[server_idx].routes,
            request.path.as_str(),
            request.body.as_slice(),
            route,
            is_file,
        )
    }

    /// Goes on with the search after a script was run.
    pub fn script_ran(
        &self,
        request: &HttpRequest,
        server_idx: usize,
        route: usize,
        mapping: usize,
        output: &[u8],
        success: bool,
    ) -> (r: CgiStep)
        requires
            route < routes_of(self.config, server_idx as int).len(),
            routes_of(self.config, server_idx as int)[route as int].root is Some,
            mapping < routes_of(self.config, server_idx as int)[route as int].cgi@.len(),
        ensures
            r@ == search_ran(
                routes_of(self.config, server_idx as int),
                request@.path,
                request@.body,
                route as int,
                mapping as int,
                output@,
                success,
            ),
    {
        resume_after_run(
            &self.config.servers[server_idx].routes,
            request.path.as_str(),
            request.body.as_slice(),
            route,
            mapping,
            output,
            success,
        )
    }

    /// Completes the answer of a script.
    pub fn script_answered(
        &mut self,
        request: &HttpRequest,
        response: HttpResponse,
        moment: Moment,
    ) -> (r: HttpResponse)
        ensures
            r@ == with_session(response@, script_session_id(request@, moment)),
            r.headers@ == response.headers@.insert(
                "Set-Cookie"@,
                set_cookie(script_session_id(request@, moment)),
            ),
            final(self).session_manager@ == sessions_after_script(
                old(self).session_manager@,
                request@,
                moment,
            ),
            final(self).connections == old(self).connections,
            final(self).listener_map == old(self).listener_map,
            final(self).config == old(self).config,
    {
        let cookies = parse_cookies(&request.headers);
        match cookies.get(COOKIE_NAME) {
            Some(id) => add_session(response, id.as_str()),
            None => {
                let id = self.session_manager.create_session(moment);
                add_session(response, id.as_str())
            },
        }
    }

    /// Tells whether the session of a request can count one more visit.
    pub fn can_count_visit(&self, request: &HttpRequest) -> (b: bool)
        ensures
            b == (visits_before(self.session_manager@, request@) < i32::MAX),
    {
        let cookies = parse_cookies(&request.headers);
        match cookies.get(COOKIE_NAME) {
            Some(id) => match self.session_manager.sessions.get(id.as_str()) {
                Some(session) => count_visits(session) < i32::MAX,
                None => true,
            },
            None => true,
        }
    }

    /// Handles a request that no script answers.
    pub fn handle_request(&mut self, request: &HttpRequest, server_idx: usize, moment: Moment) -> (r:
        Handled)
        requires
            request.method is GET ==> visits_before(old(self).session_manager@, request@)
                < i32::MAX,
        ensures
            r@ == handled(
                old(self).config,
                old(self).session_manager@,
                request@,
                server_idx as int,
                moment,
            ),
            match r {
                Handled::Respond(response) => response.headers@ == map![
                    "Set-Cookie"@ => set_cookie(
                        chosen_id(old(self).session_manager@, request@, moment),
                    ),
                ],
                _ => true,
            },
            final(self).session_manager@ == sessions_after(
                old(self).session_manager@,
                request@,
                moment,
            ),
            final(self).connections == old(self).connections,
            final(self).listener_map == old(self).listener_map,
            final(self).config == old(self).config,
    {
        let cookies = parse_cookies(&request.headers);
        let id = match cookies.get(COOKIE_NAME) {
            Some(id) => if self.session_manager.get_session(id.as_str(), moment.now).is_some() {
                id.clone()
            } else {
                self.session_manager.create_session(moment)
            },
            None => self.session_manager.create_session(moment),
        };
        self.session_manager.cleanup_expired_sessions(moment.now);
        let ghost ready = sessions_ready(old(self).session_manager@, request@, moment);
        assert(self.session_manager@ =~= ready);
        let session = self.session_manager.get_session(id.as_str(), moment.now).unwrap();
        let handled = match request.method {
            HttpMethod::GET => match handle_get(request, session) {
                GetReply::Page(response) => Handled::Respond(add_session(response, id.as_str())),
                GetReply::File(path) => Handled::Read { session_id: id, path },
            },
            HttpMethod::POST => match handle_post(request, session, &self.config, server_idx) {
                PostReply::Page(response) => Handled::Respond(add_session(response, id.as_str())),
                PostReply::Save(files) => Handled::Save { session_id: id, files },
            },
            HttpMethod::DELETE => Handled::Respond(
                add_session(handle_delete(request, session), id.as_str()),
            ),
            HttpMethod::UNSUPPORTED => Handled::Respond(
                add_session(
                    HttpResponse::html(
                        StatusCode::MethodNotAllowed,
                        "<html><body><h1>405 Method Not Allowed</h1></body></html>".to_string(),
                    ),
                    id.as_str(),
                ),
            ),
        };
        assert(self.session_manager@ =~= sessions_after(
            old(self).session_manager@,
            request@,
            moment,
        ));
        handled
    }

    /// Forgets the connections that have been idle for too long, and lists them, each once.
    pub fn check_timeouts(&mut self, now: u128) -> (r: Vec<i32>)
        ensures
            forall|fd: i32| #[trigger]
                r@.contains(fd) <==> old(self).connections@.contains_key(fd)
                    && old(self).connections@[fd].is_idle(now),
            r@.no_duplicates(),
            final(self).connections@ == old(self).connections@.remove_keys(r@.to_set()),
            final(self).listener_map == old(self).listener_map,
            final(self).session_manager == old(self).session_manager,
            final(self).config == old(self).config,
    {
        broadcast use vstd::std_specs::hash::group_hash_axioms;

        let out = self.idle_connections(now);
        let mut i: usize = 0;
        assert(self.connections@ =~= old(self).connections@.remove_keys(out@.take(0).to_set()));
        while i < out.len()
            invariant
                i <= out@.len(),
                self.connections@ == old(self).connections@.remove_keys(
                    out@.take(i as int).to_set(),
                ),
                self.listener_map == old(self).listener_map,
                self.session_manager == old(self).session_manager,
                self.config == old(self).config,
            decreases out@.len() - i,
        {
            self.remove_connection(out[i]);
            proof {
                let before = out@.take(i as int);
                let after = out@.take(i + 1);
                assert(after =~= before.push(out@[i as int]));
                assert forall|fd: i32| after.contains(fd) <==> before.contains(fd) || fd
                    == out@[i as int] by {
                    if before.contains(fd) {
                        let k = choose|k: int| 0 <= k < before.len() && before[k] == fd;
                        assert(after[k] == fd);
                    }
                    assert(after[i as int] == out@[i as int]);
                }
                assert(self.connections@ =~= old(self).connections@.remove_keys(after.to_set()));
            }
            i += 1;
        }
        assert(out@.take(i as int) =~= out@);
        out
    }

    /// Lists the connections that have been idle for too long, each once.
    fn idle_connections(&self, now: u128) -> (r: Vec<i32>)
        ensures
            forall|fd: i32| #[trigger]
                r@.contains(fd) <==> self.connections@.contains_key(fd)
                    && self.connections@[fd].is_idle(now),
            r@.no_duplicates(),
    {
        broadcast use vstd::std_specs::hash::group_hash_axioms;

        let mut out: Vec<i32> = Vec::new();
        let keys = self.connections.keys();
        let ghost all = keys.remaining().unref();
        for fd in it: keys
            invariant
                it.seq().unref() == all,
                all.to_set() == self.connections@.dom(),
                all.no_duplicates(),
                forall|k: int, j: int|
                    0 <= k < out@.len() && it.index() <= j < all.len() ==> #[trigger] out@[k]
                        != #[trigger] all[j],
                forall|k: int|
                    0 <= k < out@.len() ==> self.connections@.contains_key(#[trigger] out@[k])
                        && self.connections@[out@[k]].is_idle(now),
                forall|j: int|
                    0 <= j < it.index() && self.connections@[#[trigger] all[j]].is_idle(now)
                        ==> out@.contains(all[j]),
                out@.no_duplicates(),
        {
            let ghost before = out@;
            assert(*fd == all[it.index()]);
            assert(all.to_set().contains(*fd));
            if let Some(conn) = self.connections.get(fd) {
                if conn.timed_out(now) {
                    out.push(*fd);
                    assert(out@[before.len() as int] == *fd);
                }
            }
            assert forall|j: int|
                0 <= j < it.index() + 1 && self.connections@[#[trigger] all[j]].is_idle(
                    now,
                ) implies out@.contains(all[j]) by {
                if j < it.index() {
                    let k = choose|k: int| 0 <= k < before.len() && before[k] == all[j];
                    assert(out@[k] == all[j]);
                }
            }
        }
        out
    }
}

} // verus!
