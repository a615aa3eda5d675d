//! The search for a script that answers a request.
//!
//! Whether a script exists, and what it writes, is found out by the caller. Each step of the
//! search says what to find out next and is resumed with the finding.
use vstd::prelude::*;
use vstd::slice::{slice_subrange, slice_to_vec};
use vstd::utf8::{decode_utf8, valid_utf8};

use crate::config::{CgiConfig, RouteConfig};
use crate::path::{extension, extension_or_empty, join, joined, parent, parent_of};
use crate::request::lines_of;
use crate::response::{HttpResponse, ResponseView, PLAIN};
use crate::search::{begins_with, cut, find, position, split_all, split_once, starts_with, views};
use crate::status::StatusCode;
use crate::table::{put, TextMap};
use crate::text::{
    ascii_lowercase, chars_of, lowercase, only, same_ignoring_ascii_case, same_text, string_of,
    strip_copies, text_from_utf8, to_lowercase, trim, trim_start, trimmed, trimmed_start_of,
    without_copies, words, words_of,
};

verus! {

/// How a script is run.
#[verifier::ext_equal]
pub struct CommandView {
    pub program: Seq<char>,
    pub args: Seq<Seq<char>>,
    pub script: Seq<char>,
    pub directory: Option<Seq<char>>,
    pub path_info: Seq<char>,
    pub input: Seq<u8>,
}

/// How a script is run: the program with its arguments, the script as the last of them; the
/// directory to run it in, where there is one; the request path, which the program finds as
/// `PATH_INFO`; and the input that it is given.
pub struct CgiCommand {
    pub program: String,
    pub args: Vec<String>,
    pub script: String,
    pub directory: Option<String>,
    pub path_info: String,
    pub input: Vec<u8>,
}

/// The texts that a list of strings stands for.
pub open spec fn string_views(list: Seq<String>) -> Seq<Seq<char>> {
    Seq::new(list.len(), |i: int| list[i]@)
}

impl View for CgiCommand {
    type V = CommandView;

    open spec fn view(&self) -> CommandView {
        CommandView {
            program: self.program@,
            args: string_views(self.args@),
            script: self.script@,
            directory: match self.directory {
                Some(directory) => Some(directory@),
                None => None,
            },
            path_info: self.path_info@,
            input: self.input@,
        }
    }
}

/// What the search does next.
#[verifier::ext_equal]
pub enum StepView {
    Probe { route: int, script: Seq<char> },
    Run { route: int, mapping: int, command: CommandView },
    Answer(ResponseView),
    Nothing,
}

/// What the search does next.
pub enum CgiStep {
    /// Find out whether the script of a route is a file.
    Probe { route: usize, script: String },
    /// Run a script as a mapping of its route says.
    Run { route: usize, mapping: usize, command: CgiCommand },
    /// The script has answered.
    Answer(HttpResponse),
    /// No script answers.
    Nothing,
}

impl View for CgiStep {
    type V = StepView;

    open spec fn view(&self) -> StepView {
        match self {
            CgiStep::Probe { route, script } => StepView::Probe {
                route: *route as int,
                script: script@,
            },
            CgiStep::Run { route, mapping, command } => StepView::Run {
                route: *route as int,
                mapping: *mapping as int,
                command: command@,
            },
            CgiStep::Answer(response) => StepView::Answer(response@),
            CgiStep::Nothing => StepView::Nothing,
        }
    }
}

/// The route covers the request path and has a directory.
pub open spec fn route_applies(route: RouteConfig, path: Seq<char>) -> bool {
    route.root is Some && begins_with(path, route.path@)
}

/// The script that a request path names on a route: what is left of the path without the
/// route's own path and without slashes at its start, in the route's directory.
pub open spec fn script_path(route: RouteConfig, path: Seq<char>) -> Seq<char> {
    joined(route.root->0@, trim_start(strip_copies(path, route.path@), only('/')))
}

/// The extension of a script in lower case, empty where there is none.
pub open spec fn script_extension(script: Seq<char>) -> Seq<char> {
    lowercase(
        match extension(script) {
            Some(e) => e,
            None => seq![],
        },
    )
}

/// The mapping is for scripts with the given extension and names a program.
pub open spec fn mapping_applies(mapping: CgiConfig, ext: Seq<char>) -> bool {
    lowercase(mapping.extension@) == ext && words(mapping.command@).len() > 0
}

/// The command by which a mapping runs a script: the first word of its command is the
/// program; the other words, and then the script, are the arguments. It runs in the directory
/// that holds the script, with the body of the request as its input.
pub open spec fn command_for(
    mapping: CgiConfig,
    script: Seq<char>,
    path: Seq<char>,
    body: Seq<u8>,
) -> CommandView {
    CommandView {
        program: words(mapping.command@)[0],
        args: words(mapping.command@).skip(1).push(script),
        script,
        directory: parent(script),
        path_info: path,
        input: body,
    }
}

/// The search from route `k` on: the next route that covers the path is tried.
pub open spec fn scripts_from(routes: Seq<RouteConfig>, path: Seq<char>, k: int) -> StepView
    decreases routes.len() - k,
{
    if k < 0 || k >= routes.len() {
        StepView::Nothing
    } else if route_applies(routes[k], path) {
        StepView::Probe { route: k, script: script_path(routes[k], path) }
    } else {
        scripts_from(routes, path, k + 1)
    }
}

/// The search among the mappings of a route from `m` on: the next one that applies runs the
/// script; after the last one the search goes on with the next route.
pub open spec fn mappings_from(
    routes: Seq<RouteConfig>,
    path: Seq<char>,
    body: Seq<u8>,
    k: int,
    m: int,
) -> StepView
    decreases routes[k].cgi@.len() - m,
{
    let script = script_path(routes[k], path);
    if m < 0 || m >= routes[k].cgi@.len() {
        scripts_from(routes, path, k + 1)
    } else if mapping_applies(routes[k].cgi@[m], script_extension(script)) {
        StepView::Run {
            route: k,
            mapping: m,
            command: command_for(routes[k].cgi@[m], script, path, body),
        }
    } else {
        mappings_from(routes, path, body, k, m + 1)
    }
}

/// The search after its first step: nothing answers the path `/`.
pub open spec fn search_begun(routes: Seq<RouteConfig>, path: Seq<char>) -> StepView {
    if path == "/"@ {
        StepView::Nothing
    } else {
        scripts_from(routes, path, 0)
    }
}

/// The search after it was found out whether the script of route `k` is a file.
pub open spec fn search_probed(
    routes: Seq<RouteConfig>,
    path: Seq<char>,
    body: Seq<u8>,
    k: int,
    is_file: bool,
) -> StepView {
    if is_file {
        mappings_from(routes, path, body, k, 0)
    } else {
        scripts_from(routes, path, k + 1)
    }
}

/// The search after a script was run: output that is text is the answer.
pub open spec fn search_ran(
    routes: Seq<RouteConfig>,
    path: Seq<char>,
    body: Seq<u8>,
    k: int,
    m: int,
    output: Seq<u8>,
    success: bool,
) -> StepView {
    if valid_utf8(output) {
        StepView::Answer(script_answer(decode_utf8(output), success))
    } else {
        mappings_from(routes, path, body, k, m + 1)
    }
}

/// The headers that the lines of a script's output give. A later line counts over an
/// earlier one.
pub open spec fn script_headers(lines: Seq<Seq<char>>) -> Seq<(Seq<char>, Seq<char>)>
    decreases lines.len(),
{
    if lines.len() == 0 {
        seq![]
    } else {
        let before = script_headers(lines.drop_last());
        match split_once(lines.last(), ":"@) {
            Some((name, value)) => put(before, trim(name), trim(value)),
            None => before,
        }
    }
}

/// The content type that the last line with one gives; plain text where there is none.
pub open spec fn script_content_type(lines: Seq<Seq<char>>) -> Seq<char>
    decreases lines.len(),
{
    if lines.len() == 0 {
        PLAIN@
    } else {
        let before = script_content_type(lines.drop_last());
        match split_once(lines.last(), ":"@) {
            Some((name, value)) => if ascii_lowercase(trim(name)) == ascii_lowercase(
                "content-type"@,
            ) {
                trim(value)
            } else {
                before
            },
            None => before,
        }
    }
}

/// The response that a script's output makes: headers up to a blank line and then the body,
/// or the body alone.
pub open spec fn script_answer(output: Seq<char>, success: bool) -> ResponseView {
    let status = if success {
        StatusCode::OK
    } else {
        StatusCode::InternalServerError
    };
    match find(output, "\r\n\r\n"@) {
        Some(i) => {
            let lines = lines_of(output.take(i));
            ResponseView {
                status,
                content_type: script_content_type(lines),
                body: output.skip(i + 4),
                headers: script_headers(lines),
            }
        },
        None => ResponseView { status, content_type: PLAIN@, body: output, headers: seq![] },
    }
}

/// Makes a response of a script's output.
pub fn read_script_output(output: String, success: bool) -> (r: HttpResponse)
    ensures
        r@ == script_answer(output@, success),
{
    let status = if success {
        StatusCode::OK
    } else {
        StatusCode::InternalServerError
    };
    let chars = chars_of(output.as_str());
    let blank = chars_of("\r\n\r\n");
    let line_end = chars_of("\r\n");
    let colon = chars_of(":");
    let content_type_name = chars_of("content-type");
    proof {
        reveal_strlit("\r\n\r\n");
        reveal_strlit("\r\n");
    }
    let i: usize = match position(chars.as_slice(), blank.as_slice()) {
        None => {
            return HttpResponse {
                status,
                content_type: PLAIN.to_string(),
                body: output,
                headers: TextMap::new(),
            };
        },
        Some(i) => i,
    };
    let total: usize = chars.len();
    let head = slice_subrange(chars.as_slice(), 0, i);
    let tail = slice_subrange(chars.as_slice(), i + 4, total);
    assert(head@ =~= output@.take(i as int));
    assert(tail@ =~= output@.skip(i + 4));
    let lines = split_all(head, line_end.as_slice());
    let ghost all = views(lines@);
    let mut headers: TextMap<String> = TextMap::new();
    let mut content_type: String = PLAIN.to_string();
    let mut k: usize = 0;
    assert(all.take(0) =~= seq![]);
    while k < lines.len()
        invariant
            k <= lines@.len(),
            all == views(lines@),
            colon@ == ":"@,
            content_type_name@ == "content-type"@,
            headers.listing() == script_headers(all.take(k as int)),
            content_type@ == script_content_type(all.take(k as int)),
        decreases lines@.len() - k,
    {
        assert(all.take(k + 1).drop_last() =~= all.take(k as int));
        assert(all.take(k + 1).last() == lines@[k as int]@);
        if let Some((name, value)) = cut(lines[k], colon.as_slice()) {
            let name = trimmed(name);
            let value = trimmed(value);
            if same_ignoring_ascii_case(name, content_type_name.as_slice()) {
                content_type = string_of(value);
            }
            headers.insert(string_of(name), string_of(value));
        }
        k += 1;
    }
    assert(all.take(k as int) =~= all);
    HttpResponse { status, content_type, body: string_of(tail), headers }
}

/// Tries the routes from `from` on.
fn try_routes(routes: &Vec<RouteConfig>, path: &str, from: usize) -> (r: CgiStep)
    requires
        from <= routes@.len(),
    ensures
        r@ == scripts_from(routes@, path@, from as int),
{
    let path_chars = chars_of(path);
    let mut k: usize = from;
    while k < routes.len()
        invariant
            k <= routes@.len(),
            path_chars@ == path@,
            scripts_from(routes@, path@, from as int) == scripts_from(routes@, path@, k as int),
        decreases routes@.len() - k,
    {
        if let Some(root) = &routes[k].root {
            let own = chars_of(routes[k].path.as_str());
            if starts_with(path_chars.as_slice(), own.as_slice()) {
                let script = script_of(root.as_str(), own.as_slice(), path_chars.as_slice());
                return CgiStep::Probe { route: k, script };
            }
        }
        k += 1;
    }
    CgiStep::Nothing
}

/// The script that a request path names.
fn script_of(root: &str, own: &[char], path: &[char]) -> (r: String)
    ensures
        r@ == joined(root@, trim_start(strip_copies(path@, own@), only('/'))),
{
    let rel = trimmed_start_of(without_copies(path, own), '/');
    let base = chars_of(root);
    string_of(join(base.as_slice(), rel).as_slice())
}

/// Tries the mappings of a route from `from` on, and then the routes after it.
fn try_mappings(
    routes: &Vec<RouteConfig>,
    path: &str,
    body: &[u8],
    k: usize,
    from: usize,
) -> (r: CgiStep)
    requires
        k < routes@.len(),
        routes@[k as int].root is Some,
        from <= routes@[k as int].cgi@.len(),
    ensures
        r@ == mappings_from(routes@, path@, body@, k as int, from as int),
{
    let root = match &routes[k].root {
        Some(root) => root,
        None => {
            return CgiStep::Nothing;
        },
    };
    let path_chars = chars_of(path);
    let own = chars_of(routes[k].path.as_str());
    let script = script_of(root.as_str(), own.as_slice(), path_chars.as_slice());
    let script_chars = chars_of(script.as_str());
    let ext_chars = extension_or_empty(script_chars.as_slice());
    let ext = to_lowercase(string_of(ext_chars.as_slice()).as_str());
    let mut m: usize = from;
    while m < routes[k].cgi.len()
        invariant
            k < routes@.len(),
            m <= routes@[k as int].cgi@.len(),
            script@ == script_path(routes@[k as int], path@),
            script_chars@ == script@,
            ext@ == script_extension(script@),
            mappings_from(routes@, path@, body@, k as int, from as int) == mappings_from(
                routes@,
                path@,
                body@,
                k as int,
                m as int,
            ),
        decreases routes@[k as int].cgi@.len() - m,
    {
        let mapping = &routes[k].cgi[m];
        if same_text(to_lowercase(mapping.extension.as_str()).as_str(), ext.as_str()) {
            let command_chars = chars_of(mapping.command.as_str());
            let parts = words_of(command_chars.as_slice());
            let ghost all = views(parts@);
            if parts.len() > 0 {
                assert(all[0] == parts@[0]@);
                let mut args: Vec<String> = Vec::new();
                let mut j: usize = 1;
                assert(string_views(args@) =~= all.skip(1).take(0));
                while j < parts.len()
                    invariant
                        1 <= j <= parts@.len(),
                        all == views(parts@),
                        string_views(args@) == all.skip(1).take(j - 1),
                    decreases parts@.len() - j,
                {
                    let ghost before = string_views(args@);
                    let arg = string_of(parts[j]);
                    let ghost word = arg@;
                    args.push(arg);
                    assert(string_views(args@) =~= before.push(word));
                    assert(all.skip(1).take(j as int) =~= all.skip(1).take(j - 1).push(
                        all[j as int],
                    ));
                    j += 1;
                }
                let ghost before = string_views(args@);
                assert(before =~= all.skip(1));
                args.push(script.clone());
                assert(string_views(args@) =~= before.push(script@));
                let directory = match parent_of(script_chars.as_slice()) {
                    Some(dir) => Some(string_of(dir.as_slice())),
                    None => None,
                };
                let command = CgiCommand {
                    program: string_of(parts[0]),
                    args,
                    script,
                    directory,
                    path_info: path.to_string(),
                    input: slice_to_vec(body),
                };
                return CgiStep::Run { route: k, mapping: m, command };
            }
        }
        m += 1;
    }
    assert(k < routes.len());
    try_routes(routes, path, k + 1)
}

/// Begins the search for a script that answers a request for `path`.
pub fn begin_search(routes: &Vec<RouteConfig>, path: &str) -> (r: CgiStep)
    ensures
        r@ == search_begun(routes@, path@),
{
    if same_text(path, "/") {
        CgiStep::Nothing
    } else {
        try_routes(routes, path, 0)
    }
}

/// Goes on after it was found out whether the script of route `k` is a file.
pub fn resume_after_probe(
    routes: &Vec<RouteConfig>,
    path: &str,
    body: &[u8],
    k: usize,
    is_file: bool,
) -> (r: CgiStep)
    requires
        k < routes@.len(),
        routes@[k as int].root is Some,
    ensures
        r@ == search_probed(routes@, path@, body@, k as int, is_file),
{
    if is_file {
        try_mappings(routes, path, body, k, 0)
    } else {
        assert(k < routes.len());
        try_routes(routes, path, k + 1)
    }
}

/// Goes on after a script was run.
pub fn resume_after_run(
    routes: &Vec<RouteConfig>,
    path: &str,
    body: &[u8],
    k: usize,
    m: usize,
    output: &[u8],
    success: bool,
) -> (r: CgiStep)
    requires
        k < routes@.len(),
        routes@[k as int].root is Some,
        m < routes@[k as int].cgi@.len(),
    ensures
        r@ == search_ran(routes@, path@, body@, k as int, m as int, output@, success),
{
    match text_from_utf8(output) {
        Some(text) => CgiStep::Answer(read_script_output(text, success)),
        None => {
            assert(m < routes@[k as int].cgi.len());
            try_mappings(routes, path, body, k, m + 1)
        },
    }
}

} // verus!
