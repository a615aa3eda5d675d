use rust_server::cgi::CgiStep;
use rust_server::config::{CgiConfig, Config, GlobalConfig, RouteConfig, ServerConfig};
use rust_server::connection::{Dispatch, ReadOutcome, Readiness, REQUEST_TIMEOUT};
use rust_server::listen::{next_binding, wanted_bindings};
use rust_server::request::{parse_request, HttpRequest};
use rust_server::response::HttpResponse;
use rust_server::server::{
    finish_read, finish_save, script_error, timeout_response, ClientAction, Handled, Server,
};
use rust_server::session::{Moment, Session, SessionManager, SESSION_TIMEOUT};
use rust_server::status::StatusCode;
use std::hash::{Hash, Hasher};

fn plain_server(address: Option<&str>, ports: Option<Vec<u16>>) -> ServerConfig {
    ServerConfig {
        server_name: None,
        server_address: address.map(|a| a.to_string()),
        ports,
        settings: None,
        routes: vec![],
        routes_redirects: vec![],
    }
}

fn config(servers: Vec<ServerConfig>) -> Config {
    Config { global: None, servers, errors: None }
}

fn request(text: &str) -> HttpRequest {
    parse_request(text.as_bytes()).unwrap()
}

fn cookie_of(response: &HttpResponse) -> String {
    response.headers.get("Set-Cookie").unwrap().clone()
}

fn at(now: u128, number: u64) -> Moment {
    Moment { now, number }
}

fn respond(handled: Handled) -> HttpResponse {
    match handled {
        Handled::Respond(response) => response,
        _ => panic!("no response"),
    }
}

#[test]
fn session_numbers_are_hashed_as_std_hashes_them() {
    for nanos in [0u128, 1, 1_700_000_000_123_456_789, u128::MAX] {
        let mut hasher = std::collections::hash_map::DefaultHasher::new();
        nanos.hash(&mut hasher);
        let moment = Moment::new(5, nanos);
        assert_eq!(moment.now, 5);
        assert_eq!(moment.number, hasher.finish());
    }
}

#[test]
fn sessions_are_found_by_their_identifiers() {
    let mut sessions = SessionManager::new();
    let id = sessions.create_session(at(10, 0xabc));
    assert_eq!(id, "abc");
    assert!(sessions.get_session("abd", 11).is_none());
    let session = sessions.get_session("abc", 12).unwrap();
    assert_eq!(session.id, "abc");
    assert_eq!(session.last_accessed, 12);
    session.data.insert("k".to_string(), "v".to_string());
    assert_eq!(sessions.get_session("abc", 13).unwrap().data.get("k").unwrap(), "v");
}

#[test]
fn idle_sessions_are_cleaned_up() {
    let mut sessions = SessionManager::new();
    sessions.create_session(at(0, 1));
    sessions.create_session(at(0, 2));
    sessions.get_session("2", 1);
    sessions.cleanup_expired_sessions(SESSION_TIMEOUT - 1);
    assert_eq!(sessions.sessions.len(), 2);
    sessions.cleanup_expired_sessions(SESSION_TIMEOUT);
    assert_eq!(sessions.sessions.len(), 1);
    assert_eq!(sessions.sessions.key_at(0), "2");
    sessions.cleanup_expired_sessions(SESSION_TIMEOUT + 1);
    assert_eq!(sessions.sessions.len(), 0);
}

#[test]
fn session_notes_its_use() {
    let mut s = Session::new("x".to_string(), 3);
    assert_eq!((s.id.as_str(), s.last_accessed, s.data.len()), ("x", 3, 0));
    s.update_access_time(9);
    assert_eq!(s.last_accessed, 9);
}

#[test]
fn visits_are_numbered() {
    let mut server = Server::new(config(vec![]));
    let first = request("GET / HTTP/1.1\r\n\r\n");
    let r = respond(server.handle_request(&first, 0, at(0, 0xfeed)));
    assert_eq!(r.status, StatusCode::OK);
    assert_eq!(
        r.body,
        "<html><body><h1>Welcome to Rust Server!</h1>\
         <p>You have visited this page 1 times.</p></body></html>"
    );
    assert_eq!(cookie_of(&r), "RUSTSESSIONID=feed; Path=/; HttpOnly");
    let next = request("GET / HTTP/1.1\r\nCookie: a=b; RUSTSESSIONID=feed\r\n\r\n");
    for n in 2..5u64 {
        assert!(server.can_count_visit(&next));
        let r = respond(server.handle_request(&next, 0, at(n as u128, n)));
        assert!(r.body.contains(&format!("visited this page {n} times")));
        assert_eq!(cookie_of(&r), "RUSTSESSIONID=feed; Path=/; HttpOnly");
    }
    let stranger = request("GET / HTTP/1.1\r\nCookie: RUSTSESSIONID=nope\r\n\r\n");
    let r = respond(server.handle_request(&stranger, 0, at(9, 0xcafe)));
    assert!(r.body.contains("visited this page 1 times"));
    assert_eq!(cookie_of(&r), "RUSTSESSIONID=cafe; Path=/; HttpOnly");
}

#[test]
fn last_visit_that_can_be_counted() {
    let mut server = Server::new(config(vec![]));
    let id = server.session_manager.create_session(at(0, 7));
    let session = server.session_manager.get_session(&id, 0).unwrap();
    session.data.insert("visit_count".to_string(), "2147483646".to_string());
    let r = request("GET / HTTP/1.1\r\nCookie: RUSTSESSIONID=7\r\n\r\n");
    assert!(server.can_count_visit(&r));
    let page = respond(server.handle_request(&r, 0, at(1, 8)));
    assert!(page.body.contains("2147483647 times"));
    assert!(!server.can_count_visit(&r));
    let session = server.session_manager.get_session(&id, 2).unwrap();
    session.data.insert("visit_count".to_string(), "many".to_string());
    let page = respond(server.handle_request(&r, 0, at(3, 9)));
    assert!(page.body.contains("page 1 times"));
}

#[test]
fn idle_sessions_expire_with_the_next_request() {
    let mut server = Server::new(config(vec![]));
    let r = request("GET /about HTTP/1.1\r\n\r\n");
    let page = respond(server.handle_request(&r, 0, at(0, 1)));
    assert_eq!(page.body, "<html><body><h1>About Page</h1></body></html>");
    respond(server.handle_request(&r, 0, at(SESSION_TIMEOUT - 1, 2)));
    assert_eq!(server.session_manager.sessions.len(), 2);
    respond(server.handle_request(&r, 0, at(SESSION_TIMEOUT, 3)));
    assert!(server.session_manager.sessions.get("1").is_none());
    assert_eq!(server.session_manager.sessions.len(), 2);
}

#[test]
fn pages_are_served() {
    let mut server = Server::new(config(vec![]));
    let r = respond(server.handle_request(&request("GET /upload HTTP/1.1\r\n\r\n"), 0, at(0, 1)));
    assert_eq!(
        r.body,
        "<html><body><h1>Upload a file</h1>\
         <form action=\"/upload\" method=\"post\" enctype=\"multipart/form-data\">\
         <input type=\"file\" name=\"file\" /><input type=\"submit\" value=\"Upload\" />\
         </form></body></html>"
    );
    let r = respond(server.handle_request(&request("GET /nope HTTP/1.1\r\n\r\n"), 0, at(0, 1)));
    assert_eq!(r.status, StatusCode::NotFound);
    assert_eq!(r.body, "<html><body><h1>404 Not Found</h1></body></html>");
    let r = respond(server.handle_request(&request("DELETE /x HTTP/1.1\r\n\r\n"), 0, at(0, 1)));
    assert_eq!(
        r.body,
        "<html><body><h1>DELETE Request Received</h1><p>Resource path: /x</p></body></html>"
    );
    let r = respond(server.handle_request(&request("PUT /x HTTP/1.1\r\n\r\n"), 0, at(0, 1)));
    assert_eq!(r.status, StatusCode::MethodNotAllowed);
    assert_eq!(r.body, "<html><body><h1>405 Method Not Allowed</h1></body></html>");
    let r = respond(server.handle_request(&request("POST /p HTTP/1.1\r\n\r\nabc"), 0, at(0, 1)));
    assert_eq!(
        r.body,
        "<html><body><h1>POST Request Received</h1><p>Path: /p</p>\
         <p>Received data length: 3 bytes</p></body></html>"
    );
}

#[test]
fn upload_link_leads_to_the_file() {
    let mut server = Server::new(config(vec![]));
    let r = request("GET /uploads/a/b.HTML HTTP/1.1\r\n\r\n");
    let (id, path) = match server.handle_request(&r, 0, at(0, 0x10)) {
        Handled::Read { session_id, path } => (session_id, path),
        _ => panic!("not a file"),
    };
    assert_eq!((id.as_str(), path.as_str()), ("10", "uploads/a/b.HTML"));
    let page = finish_read(&id, &path, Some("text".to_string()));
    assert_eq!(page.content_type, "text/html; charset=utf-8");
    assert_eq!(page.body, "text");
    assert_eq!(cookie_of(&page), "RUSTSESSIONID=10; Path=/; HttpOnly");
    let missing = finish_read(&id, &path, None);
    assert_eq!(missing.status, StatusCode::NotFound);
    assert!(missing.body.contains("<title>Error 404</title>"));
    for (name, content_type) in [
        ("x.htm", "text/html; charset=utf-8"),
        ("x.css", "text/css; charset=utf-8"),
        ("x.JS", "application/javascript; charset=utf-8"),
        ("x.json", "application/json; charset=utf-8"),
        ("x", "text/plain; charset=utf-8"),
        (".html", "text/plain; charset=utf-8"),
    ] {
        assert_eq!(finish_read("s", name, Some(String::new())).content_type, content_type);
    }
}

#[test]
fn only_uploads_are_shown() {
    let mut server = Server::new(config(vec![]));
    let inside = request("GET /uploads/a/../b.txt HTTP/1.1\r\n\r\n");
    match server.handle_request(&inside, 0, at(0, 1)) {
        Handled::Read { path, .. } => assert_eq!(path, "uploads/a/../b.txt"),
        _ => panic!("not a file"),
    }
    for path in ["/uploads/../config.toml", "/uploads//etc/passwd", "/uploads/a/..", "/uploads/.."] {
        let r = request(&format!("GET {path} HTTP/1.1\r\n\r\n"));
        let page = respond(server.handle_request(&r, 0, at(0, 1)));
        assert_eq!(page.status, StatusCode::NotFound, "{path}");
        assert!(page.body.contains("<title>Error 404</title>"));
        assert_eq!(page.headers.len(), 1);
    }
}

#[test]
fn uploads_are_kept_or_refused() {
    let global = GlobalConfig { client_max_body_size: Some(130), error_pages: None };
    let mut server =
        Server::new(Config { global: Some(global), servers: vec![], errors: None });
    let head = "POST /upload HTTP/1.1\r\nContent-Type: multipart/form-data; boundary=b\r\n\r\n";
    let body = "--b\r\nContent-Disposition: form-data; filename=\"f.txt\"\r\n\r\nhi\r\n--b--\r\n";
    let r = request(&format!("{head}{body}"));
    let (id, files) = match server.handle_request(&r, 0, at(0, 0x11)) {
        Handled::Save { session_id, files } => (session_id, files),
        _ => panic!("no files"),
    };
    assert_eq!(files.len(), 1);
    assert_eq!((files[0].name.as_str(), files[0].data.as_slice()), ("f.txt", &b"hi"[..]));
    let page = finish_save(&id, &files, None);
    assert_eq!(
        page.body,
        "<html><body><h1>Upload Successful</h1><ul>\
         <li><a href=\"/uploads/f.txt\">f.txt</a></li></ul></body></html>"
    );
    let page = finish_save(&id, &files, Some("disk full".to_string()));
    assert_eq!(page.status, StatusCode::InternalServerError);
    assert_eq!(
        page.body,
        "<html><body><h1>500</h1><p>Error saving upload: disk full</p></body></html>"
    );
    let large = request(&format!("{head}{body}{}", "x".repeat(130)));
    let page = respond(server.handle_request(&large, 0, at(0, 0x12)));
    assert_eq!(page.status, StatusCode::PayloadTooLarge);
    assert_eq!(page.body, "<html><body><h1>413 Payload Too Large</h1></body></html>");
    let bad = request("POST / HTTP/1.1\r\nContent-Type: multipart/form-data\r\n\r\n");
    let page = respond(server.handle_request(&bad, 0, at(0, 0x13)));
    assert_eq!(
        page.body,
        "<html><body><h1>500</h1><p>Error saving upload: No boundary in content-type</p></body></html>"
    );
}

fn script_server() -> Server {
    let route = |path: &str, root: Option<&str>, cgi: Vec<(&str, &str)>| RouteConfig {
        path: path.to_string(),
        methods: None,
        root: root.map(|r| r.to_string()),
        index: None,
        autoindex: None,
        cgi: cgi
            .into_iter()
            .map(|(e, c)| CgiConfig { extension: e.to_string(), command: c.to_string() })
            .collect(),
    };
    let mut server = plain_server(None, None);
    server.routes = vec![
        route("/none", None, vec![]),
        route("/cgi", Some("scripts"), vec![("rb", "ruby"), ("PY", " python3  -u "), ("py", "")]),
        route("/", Some("www"), vec![("py", "pypy")]),
    ];
    Server::new(config(vec![server]))
}

#[test]
fn scripts_are_searched() {
    let server = script_server();
    let r = request("GET /cgi//dir/run.Py HTTP/1.1\r\n\r\ninput");
    let route = match server.begin_request(&r, 0) {
        CgiStep::Probe { route, script } => {
            assert_eq!(script, "scripts/dir/run.Py");
            route
        }
        _ => panic!("no probe"),
    };
    assert_eq!(route, 1);
    let (route, mapping) = match server.script_probed(&r, 0, route, true) {
        CgiStep::Run { route, mapping, command } => {
            assert_eq!(command.program, "python3");
            assert_eq!(command.args, ["-u", "scripts/dir/run.Py"]);
            assert_eq!(command.script, "scripts/dir/run.Py");
            assert_eq!(command.directory.as_deref(), Some("scripts/dir"));
            assert_eq!(command.path_info, "/cgi//dir/run.Py");
            assert_eq!(command.input, b"input");
            (route, mapping)
        }
        _ => panic!("no run"),
    };
    assert_eq!((route, mapping), (1, 1));
    // Output that is not text leads on: past the mapping without a program, to the next route.
    let route = match server.script_ran(&r, 0, route, mapping, b"\xff", true) {
        CgiStep::Probe { route, script } => {
            assert_eq!(script, "www/cgi//dir/run.Py");
            route
        }
        _ => panic!("no probe"),
    };
    assert_eq!(route, 2);
    assert!(matches!(server.script_probed(&r, 0, route, false), CgiStep::Nothing));
}

#[test]
fn script_output_is_read() {
    let server = script_server();
    let r = request("POST /cgi/a.py HTTP/1.1\r\n\r\n");
    let output = "content-TYPE : text/x \r\nX-A:1\r\nbare\r\n\r\nbody\r\n\r\nmore";
    match server.script_ran(&r, 0, 1, 1, output.as_bytes(), true) {
        CgiStep::Answer(a) => {
            assert_eq!(a.status, StatusCode::OK);
            assert_eq!(a.content_type, "text/x");
            assert_eq!(a.body, "body\r\n\r\nmore");
            assert_eq!(a.headers.len(), 2);
            assert_eq!(a.headers.get("content-TYPE").unwrap(), "text/x");
            assert_eq!(a.headers.get("X-A").unwrap(), "1");
        }
        _ => panic!("no answer"),
    }
    match server.script_ran(&r, 0, 1, 1, b"just text", false) {
        CgiStep::Answer(a) => {
            assert_eq!(a.status, StatusCode::InternalServerError);
            assert_eq!(a.content_type, "text/plain; charset=utf-8");
            assert_eq!(a.body, "just text");
            assert_eq!(a.headers.len(), 0);
        }
        _ => panic!("no answer"),
    }
}

#[test]
fn scripts_answer_only_some_requests() {
    let server = script_server();
    for text in ["GET / HTTP/1.1\r\n\r\n", "DELETE /cgi/a.py HTTP/1.1\r\n\r\n", "PUT /x x\r\n\r\n"] {
        assert!(matches!(server.begin_request(&request(text), 0), CgiStep::Nothing));
    }
    let delete = request("DELETE /cgi/a.py HTTP/1.1\r\n\r\n");
    assert!(matches!(server.try_run_cgi(&delete, 0), CgiStep::Probe { route: 1, .. }));
    let r = request("GET /cgi/a.py HTTP/1.1\r\n\r\n");
    assert!(matches!(server.try_run_cgi(&r, 1), CgiStep::Nothing));
    assert!(matches!(server.try_run_cgi(&r, 0), CgiStep::Probe { route: 1, .. }));
}

#[test]
fn script_answers_carry_a_cookie() {
    let mut server = script_server();
    let answer = || HttpResponse::html(StatusCode::OK, "x".to_string());
    let known = request("GET /a HTTP/1.1\r\nCookie: RUSTSESSIONID=anything\r\n\r\n");
    let r = server.script_answered(&known, answer(), at(0, 5));
    assert_eq!(cookie_of(&r), "RUSTSESSIONID=anything; Path=/; HttpOnly");
    assert_eq!(server.session_manager.sessions.len(), 0);
    let unknown = request("GET /a HTTP/1.1\r\n\r\n");
    let r = server.script_answered(&unknown, answer(), at(0, 5));
    assert_eq!(cookie_of(&r), "RUSTSESSIONID=5; Path=/; HttpOnly");
    assert!(server.session_manager.sessions.get("5").is_some());
    let failed = script_error("no such program");
    assert_eq!(failed.status, StatusCode::InternalServerError);
    assert_eq!(
        failed.body,
        "<html><body><h1>500</h1><p>CGI execution error: no such program</p></body></html>"
    );
}

#[test]
fn first_server_gets_the_address() {
    let c = config(vec![
        plain_server(None, Some(vec![8080, 8081, 8080])),
        plain_server(Some("0.0.0.0"), Some(vec![8080])),
        plain_server(Some("127.0.0.1"), Some(vec![8081, 8082])),
        plain_server(Some("x"), None),
    ]);
    let wishes = wanted_bindings(&c);
    let listed: Vec<(&str, usize)> =
        wishes.iter().map(|b| (b.address.as_str(), b.server_idx)).collect();
    assert_eq!(
        listed,
        [
            ("127.0.0.1:8080", 0),
            ("127.0.0.1:8081", 0),
            ("127.0.0.1:8080", 0),
            ("0.0.0.0:8080", 1),
            ("127.0.0.1:8081", 2),
            ("127.0.0.1:8082", 2),
        ]
    );
    assert_eq!(granted(&c, |address| address.to_string()), [0, 1, 3, 5]);
}

fn granted(c: &Config, reported: fn(&str) -> String) -> Vec<usize> {
    let wishes = wanted_bindings(c);
    let mut bound: Vec<String> = vec![];
    let mut granted: Vec<usize> = vec![];
    let mut from = 0;
    while let Some(i) = next_binding(&wishes, &bound, from) {
        bound.push(reported(&wishes[i].address));
        granted.push(i);
        from = i + 1;
    }
    granted
}

#[test]
fn first_server_gets_the_address_of_a_named_host() {
    let c = config(vec![
        plain_server(Some("localhost"), Some(vec![8080])),
        plain_server(Some("localhost"), Some(vec![8080, 8081])),
        plain_server(Some("127.0.0.1"), Some(vec![8081, 8082])),
    ]);
    // Wishes: localhost 8080, 8080, 8081, and 127.0.0.1 8081, 8082.
    assert_eq!(granted(&c, |a| a.replace("localhost", "127.0.0.1")), [0, 2, 4]);
    assert_eq!(granted(&c, |_| String::new()), [0, 2, 3, 4]);
}

#[test]
fn listeners_are_the_sockets() {
    let c = config(vec![
        plain_server(Some("localhost"), Some(vec![1])),
        plain_server(None, None),
        plain_server(Some("localhost"), Some(vec![1, 2])),
    ]);
    let wishes = wanted_bindings(&c);
    let grants = granted(&c, |a| a.to_string());
    assert_eq!(grants, [0, 2]);
    let mut server = Server::new(c);
    assert!(server.listener_map.is_empty());
    for (k, i) in grants.iter().enumerate() {
        server.add_listener(20 + k as i32, wishes[*i].server_idx);
    }
    assert_eq!(server.listener_map.len(), 2);
    assert_eq!(server.listener_map.get(&20), Some(&0));
    assert_eq!(server.listener_map.get(&21), Some(&2));
}

#[test]
fn events_are_dispatched() {
    let mut server = Server::new(config(vec![]));
    server.add_listener(3, 0);
    let quiet = Readiness { readable: false, error: false, hangup: false };
    let readable = Readiness { readable: true, ..quiet };
    assert_eq!(server.dispatch(3, readable), Dispatch::Accept);
    assert_eq!(server.dispatch(3, Readiness { error: true, ..quiet }), Dispatch::Accept);
    assert_eq!(server.dispatch(4, readable), Dispatch::Read);
    assert_eq!(server.dispatch(4, Readiness { hangup: true, ..readable }), Dispatch::Remove);
    assert_eq!(server.dispatch(4, Readiness { error: true, ..readable }), Dispatch::Remove);
    assert_eq!(server.dispatch(4, quiet), Dispatch::Ignore);
}

#[test]
fn connections_go_to_the_server_of_their_listener() {
    let mut server = Server::new(config(vec![]));
    server.add_listener(3, 2);
    server.add_listener(4, 1);
    server.accept_connection(3, 10, 100);
    server.accept_connection(4, 11, 100);
    server.accept_connection(99, 12, 100);
    let data = || ReadOutcome::Data(b"GET / HTTP/1.1\r\n\r\n".to_vec());
    for (fd, idx) in [(10, 2), (11, 1), (12, 0)] {
        match server.handle_client_data(fd, data(), 200) {
            ClientAction::Handle(request, server_idx) => {
                assert_eq!(request.path, "/");
                assert_eq!(server_idx, idx);
            }
            _ => panic!("no request"),
        }
        assert_eq!(server.connections.get(&fd).unwrap().last_activity, 200);
    }
}

#[test]
fn reads_are_judged() {
    let mut server = Server::new(config(vec![]));
    server.accept_connection(3, 10, 0);
    assert!(matches!(
        server.handle_client_data(10, ReadOutcome::Data(vec![]), 1),
        ClientAction::Close
    ));
    assert!(matches!(
        server.handle_client_data(10, ReadOutcome::Failed, 1),
        ClientAction::Close
    ));
    assert!(matches!(
        server.handle_client_data(10, ReadOutcome::WouldBlock, 1),
        ClientAction::Wait
    ));
    assert!(matches!(
        server.handle_client_data(77, ReadOutcome::Data(b"x".to_vec()), 1),
        ClientAction::Wait
    ));
    match server.handle_client_data(10, ReadOutcome::Data(b"garbage".to_vec()), 1) {
        ClientAction::Reply(page) => {
            assert_eq!(page.status, StatusCode::BadRequest);
            assert_eq!(page.body, "<html><body><h1>400 Bad Request</h1></body></html>");
        }
        _ => panic!("no reply"),
    }
}

#[test]
fn idle_connections_time_out() {
    let mut server = Server::new(config(vec![]));
    server.accept_connection(3, 10, 0);
    server.accept_connection(3, 11, 0);
    server.accept_connection(3, 12, 5);
    server.handle_client_data(11, ReadOutcome::WouldBlock, 1);
    assert!(server.check_timeouts(REQUEST_TIMEOUT).is_empty());
    assert_eq!(server.check_timeouts(REQUEST_TIMEOUT + 1), [10]);
    assert_eq!(server.connections.len(), 2);
    let mut gone = server.check_timeouts(REQUEST_TIMEOUT + 6);
    gone.sort();
    assert_eq!(gone, [11, 12]);
    assert!(server.connections.is_empty());
    server.accept_connection(3, 13, 0);
    server.remove_connection(13);
    assert!(server.connections.is_empty());
    let page = timeout_response();
    assert_eq!(page.status, StatusCode::InternalServerError);
    assert_eq!(
        page.body,
        "<html><body><h1>408 Request Timeout</h1><p>The request has timed out.</p></body></html>"
    );
}
