//! The search for a script finds the one that answers.
use vstd::prelude::*;
use vstd::utf8::{decode_utf8, valid_utf8};

use crate::cgi::{
    command_for, mapping_applies, mappings_from, route_applies, script_answer, script_content_type,
    script_extension, script_headers, script_path, scripts_from, search_probed, search_ran,
    CommandView, StepView,
};
use crate::config::{Config, RouteConfig};
use crate::laws::paths::{is_piece, law_extension_follows_the_last_dot};
use crate::laws::requests::{
    header_line, is_word, lemma_line_text_concat, lemma_no_blank_line, lemma_word_before_space,
};
use crate::laws::splitting::{
    joined_by, lemma_split_first, lemma_split_joined, lemma_symbol_not_found,
    lemma_trim_drops_first, lemma_trim_keeps,
};
use crate::laws::text::{
    is_all, law_begins_with, law_copies_are_stripped, lemma_trim_start_takes_off,
};
use crate::path::{extension, parent};
use crate::request::RequestView;
use crate::response::{ResponseView, PLAIN};
use crate::search::{begins_with, find, lemma_find_is, lemma_find_none, occurs_at, split_once};
use crate::server::{routes_of, script_search};
use crate::status::StatusCode;
use crate::table::{distinct_keys, lemma_put, mapping, put};
use crate::text::{
    ascii_lowercase, is_line_text, is_white, lemma_word_len, lowercase, only, strip_copies, trim,
    white, words,
};

verus! {

/// What the search finds outside: which paths are files, and what a command writes and
/// whether it succeeds, or why it could not be run.
pub struct World {
    pub is_file: spec_fn(Seq<char>) -> bool,
    pub run: spec_fn(CommandView) -> Result<(Seq<u8>, bool), Seq<char>>,
}

/// What the mappings of a route from `m` on make of a script: the first one that applies
/// and writes text answers, and an error ends the search.
pub open spec fn mapping_outcome(
    world: World,
    route: RouteConfig,
    path: Seq<char>,
    body: Seq<u8>,
    m: int,
) -> Option<Result<ResponseView, Seq<char>>>
    decreases route.cgi@.len() - m,
{
    let script = script_path(route, path);
    if m < 0 || m >= route.cgi@.len() {
        None
    } else if mapping_applies(route.cgi@[m], script_extension(script)) {
        match (world.run)(command_for(route.cgi@[m], script, path, body)) {
            Err(message) => Some(Err(message)),
            Ok((output, success)) => if valid_utf8(output) {
                Some(Ok(script_answer(decode_utf8(output), success)))
            } else {
                mapping_outcome(world, route, path, body, m + 1)
            },
        }
    } else {
        mapping_outcome(world, route, path, body, m + 1)
    }
}

/// What the routes from `k` on make of a request: the first one that covers the path, whose
/// script is a file and is answered by a mapping, decides.
pub open spec fn route_outcome(
    world: World,
    routes: Seq<RouteConfig>,
    path: Seq<char>,
    body: Seq<u8>,
    k: int,
) -> Option<Result<ResponseView, Seq<char>>>
    decreases routes.len() - k,
{
    if k < 0 || k >= routes.len() {
        None
    } else {
        let here = if route_applies(routes[k], path) && (world.is_file)(
            script_path(routes[k], path),
        ) {
            mapping_outcome(world, routes[k], path, body, 0)
        } else {
            None
        };
        match here {
            Some(outcome) => Some(outcome),
            None => route_outcome(world, routes, path, body, k + 1),
        }
    }
}

/// What is still to come of the search after a step.
pub open spec fn outcome_ahead(
    world: World,
    routes: Seq<RouteConfig>,
    path: Seq<char>,
    body: Seq<u8>,
    step: StepView,
) -> Option<Result<ResponseView, Seq<char>>> {
    match step {
        StepView::Nothing => None,
        StepView::Answer(response) => Some(Ok(response)),
        StepView::Probe { route, .. } => route_outcome(world, routes, path, body, route),
        StepView::Run { route, mapping, .. } => match mapping_outcome(
            world,
            routes[route],
            path,
            body,
            mapping,
        ) {
            Some(outcome) => Some(outcome),
            None => route_outcome(world, routes, path, body, route + 1),
        },
    }
}

/// The step speaks of a route and a mapping that apply.
pub open spec fn step_fits(
    routes: Seq<RouteConfig>,
    path: Seq<char>,
    body: Seq<u8>,
    step: StepView,
) -> bool {
    match step {
        StepView::Nothing => true,
        StepView::Answer(_) => true,
        StepView::Probe { route, script } => {
            &&& 0 <= route < routes.len()
            &&& route_applies(routes[route], path)
            &&& script == script_path(routes[route], path)
        },
        StepView::Run { route, mapping, command } => {
            let script = script_path(routes[route], path);
            &&& 0 <= route < routes.len()
            &&& route_applies(routes[route], path)
            &&& 0 <= mapping < routes[route].cgi@.len()
            &&& mapping_applies(routes[route].cgi@[mapping], script_extension(script))
            &&& command == command_for(routes[route].cgi@[mapping], script, path, body)
        },
    }
}

/// How far the search has come with a step: the route, and the mapping within it.
pub open spec fn place_of(routes: Seq<RouteConfig>, step: StepView) -> (int, int) {
    match step {
        StepView::Nothing => (routes.len() as int, 0),
        StepView::Answer(_) => (routes.len() as int, 0),
        StepView::Probe { route, .. } => (route, -1),
        StepView::Run { route, mapping, .. } => (route, mapping),
    }
}

/// One place comes after another.
pub open spec fn is_after(a: (int, int), b: (int, int)) -> bool {
    a.0 > b.0 || (a.0 == b.0 && a.1 > b.1)
}

/// The search among the routes from one on.
proof fn lemma_routes(
    world: World,
    routes: Seq<RouteConfig>,
    path: Seq<char>,
    body: Seq<u8>,
    k: int,
)
    requires
        0 <= k <= routes.len(),
    ensures
        ({
            let step = scripts_from(routes, path, k);
            &&& step_fits(routes, path, body, step)
            &&& place_of(routes, step).0 >= k
            &&& outcome_ahead(world, routes, path, body, step) == route_outcome(world, routes, path, body, k)
        }),
    decreases routes.len() - k,
{
    if k < routes.len() && !route_applies(routes[k], path) {
        lemma_routes(world, routes, path, body, k + 1);
    }
}

/// The search among the mappings of a route from one on.
proof fn lemma_mappings(
    world: World,
    routes: Seq<RouteConfig>,
    path: Seq<char>,
    body: Seq<u8>,
    k: int,
    m: int,
)
    requires
        0 <= k < routes.len(),
        route_applies(routes[k], path),
        0 <= m <= routes[k].cgi@.len(),
    ensures
        ({
            let step = mappings_from(routes, path, body, k, m);
            &&& step_fits(routes, path, body, step)
            &&& is_after(place_of(routes, step), (k, m - 1))
            &&& outcome_ahead(world, routes, path, body, step) == match mapping_outcome(
                world,
                routes[k],
                path,
                body,
                m,
            ) {
                Some(outcome) => Some(outcome),
                None => route_outcome(world, routes, path, body, k + 1),
            }
        }),
    decreases routes[k].cgi@.len() - m,
{
    let script = script_path(routes[k], path);
    if m >= routes[k].cgi@.len() {
        lemma_routes(world, routes, path, body, k + 1);
    } else if mapping_applies(routes[k].cgi@[m], script_extension(script)) {
    } else {
        lemma_mappings(world, routes, path, body, k, m + 1);
    }
}

/// The search begins with all that the routes can make of a request ahead of it; nothing is
/// ahead for the path `/` and for methods other than GET and POST.
pub proof fn law_search_begins(
    world: World,
    config: Config,
    request: RequestView,
    server_idx: int,
)
    ensures
        ({
            let routes = routes_of(config, server_idx);
            let step = script_search(config, request, server_idx);
            &&& step_fits(routes, request.path, request.body, step)
            &&& outcome_ahead(world, routes, request.path, request.body, step) == if request.path != "/"@ && (
            request.method is GET || request.method is POST) {
                route_outcome(world, routes, request.path, request.body, 0)
            } else {
                None
            }
        }),
{
    lemma_routes(world, routes_of(config, server_idx), request.path, request.body, 0);
}

/// To find out whether a script is a file brings the search on without losing anything.
pub proof fn law_search_goes_on_after_probe(
    world: World,
    routes: Seq<RouteConfig>,
    path: Seq<char>,
    body: Seq<u8>,
    step: StepView,
)
    requires
        step_fits(routes, path, body, step),
        step is Probe,
    ensures
        ({
            let next = search_probed(
                routes,
                path,
                body,
                step->Probe_route,
                (world.is_file)(step->Probe_script),
            );
            &&& step_fits(routes, path, body, next)
            &&& is_after(place_of(routes, next), place_of(routes, step))
            &&& outcome_ahead(world, routes, path, body, next) == outcome_ahead(
                world,
                routes,
                path,
                body,
                step,
            )
        }),
{
    let k = step->Probe_route;
    lemma_mappings(world, routes, path, body, k, 0);
    lemma_routes(world, routes, path, body, k + 1);
}

/// To run a script brings the search on without losing anything, and a script that cannot
/// be run ends it with the error.
pub proof fn law_search_goes_on_after_run(
    world: World,
    routes: Seq<RouteConfig>,
    path: Seq<char>,
    body: Seq<u8>,
    step: StepView,
)
    requires
        step_fits(routes, path, body, step),
        step is Run,
    ensures
        match (world.run)(step->command) {
            Ok((output, success)) => {
                let next = search_ran(
                    routes,
                    path,
                    body,
                    step->Run_route,
                    step->mapping,
                    output,
                    success,
                );
                &&& step_fits(routes, path, body, next)
                &&& is_after(place_of(routes, next), place_of(routes, step))
                &&& outcome_ahead(world, routes, path, body, next) == outcome_ahead(
                    world,
                    routes,
                    path,
                    body,
                    step,
                )
            },
            Err(message) => outcome_ahead(world, routes, path, body, step) == Some(
                Err::<ResponseView, Seq<char>>(message),
            ),
        },
{
    let k = step->Run_route;
    let m = step->mapping;
    lemma_mappings(world, routes, path, body, k, m + 1);
}

/// A name and a value that a script can write as a header.
pub open spec fn is_script_header(header: (Seq<char>, Seq<char>)) -> bool {
    &&& is_line_text(header.0)
    &&& is_line_text(header.1)
    &&& !header.0.contains(':')
    &&& header.0.len() > 0 ==> !is_white(header.0[0]) && !is_white(header.0.last())
    &&& header.1.len() > 0 ==> !is_white(header.1[0]) && !is_white(header.1.last())
}

/// The headers that a script writes; a later one counts over an earlier one.
pub open spec fn script_table(headers: Seq<(Seq<char>, Seq<char>)>) -> Seq<(Seq<char>, Seq<char>)>
    decreases headers.len(),
{
    if headers.len() == 0 {
        seq![]
    } else {
        put(script_table(headers.drop_last()), headers.last().0, headers.last().1)
    }
}

/// The content type that a script writes; plain text where it writes none.
pub open spec fn script_type(headers: Seq<(Seq<char>, Seq<char>)>) -> Seq<char>
    decreases headers.len(),
{
    if headers.len() == 0 {
        PLAIN@
    } else if ascii_lowercase(headers.last().0) == ascii_lowercase("content-type"@) {
        headers.last().1
    } else {
        script_type(headers.drop_last())
    }
}

/// The lines of headers.
spec fn lines_for(headers: Seq<(Seq<char>, Seq<char>)>) -> Seq<Seq<char>> {
    headers.map_values(|h: (Seq<char>, Seq<char>)| header_line(h))
}

/// The line of a header is read as the header.
proof fn lemma_script_line(header: (Seq<char>, Seq<char>))
    requires
        is_script_header(header),
    ensures
        is_line_text(header_line(header)),
        header_line(header).len() > 0,
        split_once(header_line(header), ":"@) is Some,
        trim((split_once(header_line(header), ":"@)->0).0) == header.0,
        trim((split_once(header_line(header), ":"@)->0).1) == header.1,
{
    reveal_strlit(":");
    reveal_strlit(": ");
    let (name, value) = header;
    lemma_line_text_concat(name, ": "@);
    lemma_line_text_concat(name + ": "@, value);
    assert(header_line(header) =~= name + ":"@ + (seq![' '] + value));
    lemma_symbol_not_found(name, ":"@);
    lemma_split_first(name, ":"@, seq![' '] + value);
    lemma_trim_keeps(name, white());
    lemma_trim_drops_first(' ', value, white());
    lemma_trim_keeps(value, white());
    assert(trim(seq![' '] + value) == trim(value));
}

/// The lines of headers are read as the headers.
proof fn lemma_script_lines(headers: Seq<(Seq<char>, Seq<char>)>)
    requires
        forall|i: int| 0 <= i < headers.len() ==> is_script_header(#[trigger] headers[i]),
    ensures
        script_headers(lines_for(headers)) == script_table(headers),
        script_content_type(lines_for(headers)) == script_type(headers),
    decreases headers.len(),
{
    if headers.len() > 0 {
        let before = headers.drop_last();
        assert forall|i: int| 0 <= i < before.len() implies is_script_header(
            #[trigger] before[i],
        ) by {
            assert(before[i] == headers[i]);
        }
        lemma_script_lines(before);
        assert(lines_for(headers).drop_last() =~= lines_for(before));
        assert(is_script_header(headers[headers.len() - 1]));
        lemma_script_line(headers.last());
    }
}

/// What a script writes is read back: its headers, the content type among them, and after
/// the blank line its body, whatever that holds.
pub proof fn law_script_output_is_read_back(
    headers: Seq<(Seq<char>, Seq<char>)>,
    body: Seq<char>,
    success: bool,
)
    requires
        headers.len() > 0,
        forall|i: int| 0 <= i < headers.len() ==> is_script_header(#[trigger] headers[i]),
    ensures
        script_answer(
            joined_by(
                headers.map_values(|h: (Seq<char>, Seq<char>)| header_line(h)),
                "\r\n"@,
            ) + "\r\n\r\n"@ + body,
            success,
        ) == (ResponseView {
            status: if success {
                StatusCode::OK
            } else {
                StatusCode::InternalServerError
            },
            content_type: script_type(headers),
            body,
            headers: script_table(headers),
        }),
{
    reveal_strlit("\r\n");
    reveal_strlit("\r\n\r\n");
    let lines = lines_for(headers);
    let sep = "\r\n"@;
    let blank = "\r\n\r\n"@;
    let head = joined_by(lines, sep);
    let output = head + blank + body;
    let n = head.len() as int;
    assert(sep =~= seq!['\r', '\n']);
    assert(blank =~= seq!['\r', '\n', '\r', '\n']);
    assert forall|i: int| 0 <= i < lines.len() implies !(#[trigger] lines[i]).contains('\r')
        && lines[i].len() > 0 && find(lines[i], sep) is None by {
        assert(is_script_header(headers[i]));
        lemma_script_line(headers[i]);
        lemma_symbol_not_found(lines[i], sep);
    }
    assert forall|j: int| 0 <= j < n implies !occurs_at(output, blank, j) by {
        lemma_no_blank_line('\r', '\n', lines, body, j);
    }
    assert(output.subrange(n, n + 4) =~= blank);
    lemma_find_is(output, blank, 0, n);
    assert(output.take(n) =~= head);
    assert(output.skip(n + 4) =~= body);
    lemma_split_joined(lines, sep);
    lemma_script_lines(headers);
}

/// A line of a script's output with what stands before and after its first colon.
pub open spec fn is_output_line(line: (Seq<char>, Seq<char>)) -> bool {
    is_line_text(line.0) && is_line_text(line.1) && !line.0.contains(':')
}

/// The headers on the lines of a script's output: what stands before and after the colon,
/// without white space around. A later one counts over an earlier one.
pub open spec fn output_table(lines: Seq<(Seq<char>, Seq<char>)>) -> Map<Seq<char>, Seq<char>>
    decreases lines.len(),
{
    if lines.len() == 0 {
        Map::empty()
    } else {
        output_table(lines.drop_last()).insert(trim(lines.last().0), trim(lines.last().1))
    }
}

/// The lines as they are written.
spec fn output_lines(lines: Seq<(Seq<char>, Seq<char>)>) -> Seq<Seq<char>> {
    lines.map_values(|l: (Seq<char>, Seq<char>)| l.0 + ":"@ + l.1)
}

/// A line is read as its header.
proof fn lemma_output_line(line: (Seq<char>, Seq<char>))
    requires
        is_output_line(line),
    ensures
        is_line_text(line.0 + ":"@ + line.1),
        split_once(line.0 + ":"@ + line.1, ":"@) == Some(line),
{
    reveal_strlit(":");
    lemma_line_text_concat(line.0, ":"@);
    lemma_line_text_concat(line.0 + ":"@, line.1);
    lemma_symbol_not_found(line.0, ":"@);
    lemma_split_first(line.0, ":"@, line.1);
}

/// Lines are read as their headers.
proof fn lemma_output_lines(lines: Seq<(Seq<char>, Seq<char>)>)
    requires
        forall|i: int| 0 <= i < lines.len() ==> is_output_line(#[trigger] lines[i]),
    ensures
        mapping(script_headers(output_lines(lines))) == output_table(lines),
        distinct_keys(script_headers(output_lines(lines))),
    decreases lines.len(),
{
    if lines.len() > 0 {
        let before = lines.drop_last();
        assert forall|i: int| 0 <= i < before.len() implies is_output_line(#[trigger] before[i]) by {
            assert(before[i] == lines[i]);
        }
        lemma_output_lines(before);
        assert(output_lines(lines).drop_last() =~= output_lines(before));
        assert(is_output_line(lines[lines.len() - 1]));
        lemma_output_line(lines.last());
        lemma_put(
            script_headers(output_lines(before)),
            trim(lines.last().0),
            trim(lines.last().1),
        );
    }
}

/// The content type that lines give, where the line `i` names one and no later line does, or
/// none does.
proof fn lemma_output_type(lines: Seq<(Seq<char>, Seq<char>)>, i: int)
    requires
        forall|k: int| 0 <= k < lines.len() ==> is_output_line(#[trigger] lines[k]),
        -1 <= i < lines.len(),
        i >= 0 ==> ascii_lowercase(trim(lines[i].0)) == "content-type"@,
        forall|k: int|
            i < k < lines.len() ==> ascii_lowercase(trim((#[trigger] lines[k]).0))
                != "content-type"@,
    ensures
        script_content_type(output_lines(lines)) == if i >= 0 {
            trim(lines[i].1)
        } else {
            "text/plain; charset=utf-8"@
        },
    decreases lines.len(),
{
    reveal_strlit("content-type");
    assert(ascii_lowercase("content-type"@) =~= "content-type"@);
    if lines.len() > 0 {
        let before = lines.drop_last();
        let last = lines[lines.len() - 1];
        assert(output_lines(lines).drop_last() =~= output_lines(before));
        assert(is_output_line(last));
        lemma_output_line(last);
        if i < before.len() {
            assert forall|k: int| 0 <= k < before.len() implies is_output_line(
                #[trigger] before[k],
            ) by {
                assert(before[k] == lines[k]);
            }
            assert forall|k: int| i < k < before.len() implies ascii_lowercase(
                trim((#[trigger] before[k]).0),
            ) != "content-type"@ by {
                assert(before[k] == lines[k]);
            }
            lemma_output_type(before, i);
        }
    }
}

/// What a script writes is read back: each line up to the blank one gives the header that
/// stands around its first colon, the last line that names the content type in any case gives
/// the type, plain text where none does, and what follows the blank line is the body as it
/// is.
pub proof fn law_output_lines_are_read_back(
    lines: Seq<(Seq<char>, Seq<char>)>,
    i: int,
    body: Seq<char>,
    success: bool,
)
    requires
        lines.len() > 0,
        forall|k: int| 0 <= k < lines.len() ==> is_output_line(#[trigger] lines[k]),
        -1 <= i < lines.len(),
        i >= 0 ==> ascii_lowercase(trim(lines[i].0)) == "content-type"@,
        forall|k: int|
            i < k < lines.len() ==> ascii_lowercase(trim((#[trigger] lines[k]).0))
                != "content-type"@,
    ensures
        ({
            let answer = script_answer(
                joined_by(
                    lines.map_values(|l: (Seq<char>, Seq<char>)| l.0 + ":"@ + l.1),
                    "\r\n"@,
                ) + "\r\n\r\n"@ + body,
                success,
            );
            &&& answer.body == body
            &&& mapping(answer.headers) == output_table(lines)
            &&& answer.content_type == if i >= 0 {
                trim(lines[i].1)
            } else {
                "text/plain; charset=utf-8"@
            }
        }),
{
    reveal_strlit("\r\n");
    reveal_strlit("\r\n\r\n");
    reveal_strlit(":");
    let texts = output_lines(lines);
    let sep = "\r\n"@;
    let blank = "\r\n\r\n"@;
    let head = joined_by(texts, sep);
    let output = head + blank + body;
    let n = head.len() as int;
    assert(sep =~= seq!['\r', '\n']);
    assert(blank =~= seq!['\r', '\n', '\r', '\n']);
    assert forall|k: int| 0 <= k < texts.len() implies !(#[trigger] texts[k]).contains('\r')
        && texts[k].len() > 0 && find(texts[k], sep) is None by {
        assert(is_output_line(lines[k]));
        lemma_output_line(lines[k]);
        lemma_symbol_not_found(texts[k], sep);
    }
    assert forall|j: int| 0 <= j < n implies !occurs_at(output, blank, j) by {
        lemma_no_blank_line('\r', '\n', texts, body, j);
    }
    assert(output.subrange(n, n + 4) =~= blank);
    lemma_find_is(output, blank, 0, n);
    assert(output.take(n) =~= head);
    assert(output.skip(n + 4) =~= body);
    lemma_split_joined(texts, sep);
    lemma_output_lines(lines);
    lemma_output_type(lines, i);
}

/// Whatever a script writes, the answer is good where the script succeeded and an error where
/// it failed; and output without a blank line is the body as a whole, as plain text and
/// without headers.
pub proof fn law_script_status_is_its_success(output: Seq<char>, success: bool)
    ensures
        success ==> script_answer(output, success).status == StatusCode::OK,
        !success ==> script_answer(output, success).status == StatusCode::InternalServerError,
        (forall|j: int| 0 <= j <= output.len() - 4 ==> (#[trigger] output.skip(j)).take(4)
            != "\r\n\r\n"@) ==> {
            let answer = script_answer(output, success);
            &&& answer.body == output
            &&& answer.content_type == "text/plain; charset=utf-8"@
            &&& answer.headers == Seq::<(Seq<char>, Seq<char>)>::empty()
        },
{
    reveal_strlit("\r\n\r\n");
    let blank = "\r\n\r\n"@;
    if forall|j: int| 0 <= j <= output.len() - 4 ==> (#[trigger] output.skip(j)).take(4) != blank {
        assert forall|j: int| 0 <= j implies !occurs_at(output, blank, j) by {
            if occurs_at(output, blank, j) {
                assert(output.skip(j).take(4) =~= output.subrange(j, j + 4));
            }
        }
        lemma_find_none(output, blank, 0);
    }
}

/// A line of a script's output without a colon gives no header.
pub proof fn law_script_lines_without_colon_count_for_nothing(
    lines: Seq<Seq<char>>,
    line: Seq<char>,
)
    requires
        !line.contains(':'),
    ensures
        script_headers(lines.push(line)) == script_headers(lines),
        script_content_type(lines.push(line)) == script_content_type(lines),
{
    reveal_strlit(":");
    lemma_symbol_not_found(line, ":"@);
    assert(lines.push(line).drop_last() =~= lines);
}

/// Where a route's script is a file, the first mapping that is for the script's extension in
/// either case, and whose command has a first word, runs it: that word is the program, the
/// further words and then the script are its arguments. It runs in the directory of the
/// script with the body of the request as its input, and finds the path of the request as
/// `PATH_INFO`.
pub proof fn law_first_fitting_mapping_runs(
    routes: Seq<RouteConfig>,
    path: Seq<char>,
    body: Seq<u8>,
    k: int,
    m: int,
    base: Seq<char>,
    ext: Seq<char>,
    word: Seq<char>,
    rest: Seq<char>,
)
    requires
        0 <= k < routes.len(),
        0 <= m < routes[k].cgi@.len(),
        script_path(routes[k], path) == base + "."@ + ext,
        base.len() > 0,
        base.last() != '/',
        ext.len() > 0,
        !ext.contains('.'),
        is_piece(ext),
        lowercase(routes[k].cgi@[m].extension@) == lowercase(ext),
        routes[k].cgi@[m].command@ == word + rest,
        is_word(word),
        rest.len() == 0 || is_white(rest[0]),
        forall|j: int|
            0 <= j < m ==> lowercase((#[trigger] routes[k].cgi@[j]).extension@) != lowercase(ext)
                || is_all(routes[k].cgi@[j].command@, |c: char| is_white(c)),
    ensures
        search_probed(routes, path, body, k, true) == (StepView::Run {
            route: k,
            mapping: m,
            command: CommandView {
                program: word,
                args: words(rest).push(base + "."@ + ext),
                script: base + "."@ + ext,
                directory: parent(base + "."@ + ext),
                path_info: path,
                input: body,
            },
        }),
{
    law_extension_follows_the_last_dot(base, ext);
    lemma_word_before_space(word, rest);
    let found = words(word + rest);
    assert(found.skip(1) =~= words(rest));
    lemma_mappings_skipped(routes, path, body, k, m, ext, 0);
}

/// A text of white space has no words.
proof fn lemma_no_words(s: Seq<char>)
    requires
        is_all(s, |c: char| is_white(c)),
    ensures
        words(s).len() == 0,
    decreases s.len(),
{
    if s.len() > 0 {
        let p = |c: char| is_white(c);
        assert(p(s[0]));
        assert(is_all(s.skip(1), p));
        lemma_no_words(s.skip(1));
    }
}

/// Mappings that do not fit are passed over.
proof fn lemma_mappings_skipped(
    routes: Seq<RouteConfig>,
    path: Seq<char>,
    body: Seq<u8>,
    k: int,
    m: int,
    ext: Seq<char>,
    from: int,
)
    requires
        0 <= k < routes.len(),
        0 <= from <= m <= routes[k].cgi@.len(),
        script_extension(script_path(routes[k], path)) == lowercase(ext),
        forall|j: int|
            0 <= j < m ==> lowercase((#[trigger] routes[k].cgi@[j]).extension@) != lowercase(ext)
                || is_all(routes[k].cgi@[j].command@, |c: char| is_white(c)),
    ensures
        mappings_from(routes, path, body, k, from) == mappings_from(routes, path, body, k, m),
    decreases m - from,
{
    if from < m {
        let mapping = routes[k].cgi@[from];
        if lowercase(mapping.extension@) == lowercase(ext) {
            lemma_no_words(mapping.command@);
        }
        lemma_mappings_skipped(routes, path, body, k, m, ext, from + 1);
    }
}

/// Where no mapping of a route fits its script, and where the script is no file, the search
/// goes on with the next route that covers the path.
pub proof fn law_search_passes_over_other_routes(
    routes: Seq<RouteConfig>,
    path: Seq<char>,
    body: Seq<u8>,
    k: int,
    ext: Seq<char>,
    base: Seq<char>,
)
    requires
        0 <= k < routes.len(),
    ensures
        search_probed(routes, path, body, k, false) == scripts_from(routes, path, k + 1),
        script_path(routes[k], path) == base + "."@ + ext && base.len() > 0 && base.last() != '/'
            && ext.len() > 0 && !ext.contains('.') && is_piece(ext) && (forall|j: int|
            0 <= j < routes[k].cgi@.len() ==> lowercase((#[trigger] routes[k].cgi@[j]).extension@)
                != lowercase(ext) || is_all(
                routes[k].cgi@[j].command@,
                |c: char| is_white(c),
            )) ==> search_probed(routes, path, body, k, true) == scripts_from(routes, path, k + 1),
{
    if script_path(routes[k], path) == base + "."@ + ext && base.len() > 0 && base.last() != '/'
        && ext.len() > 0 && !ext.contains('.') && is_piece(ext) && (forall|j: int|
        0 <= j < routes[k].cgi@.len() ==> lowercase((#[trigger] routes[k].cgi@[j]).extension@)
            != lowercase(ext) || is_all(routes[k].cgi@[j].command@, |c: char| is_white(c))) {
        law_extension_follows_the_last_dot(base, ext);
        lemma_mappings_skipped(routes, path, body, k, routes[k].cgi@.len() as int, ext, 0);
    }
}

/// Copies of a text one after the other.
pub open spec fn copies_of(s: Seq<char>, n: nat) -> Seq<char>
    decreases n,
{
    if n == 0 {
        seq![]
    } else {
        s + copies_of(s, (n - 1) as nat)
    }
}

/// All copies at the start are dropped.
pub proof fn lemma_copies_stripped(own: Seq<char>, n: nat, rest: Seq<char>)
    requires
        own.len() > 0,
        !begins_with(rest, own),
    ensures
        strip_copies(copies_of(own, n) + rest, own) == rest,
    decreases n,
{
    if n == 0 {
        assert(copies_of(own, n) + rest =~= rest);
        law_copies_are_stripped(rest, own);
    } else {
        let fewer = copies_of(own, (n - 1) as nat);
        assert(copies_of(own, n) + rest =~= own + (fewer + rest));
        law_copies_are_stripped(fewer + rest, own);
        lemma_copies_stripped(own, (n - 1) as nat, rest);
    }
}

/// The search tries the first route that has a directory and whose path the request begins
/// with; the script is what follows in the path after the route's path, repeated or not, and
/// after slashes, in that directory. Where there is no such route, nothing answers.
pub proof fn law_first_covering_route_is_tried(
    routes: Seq<RouteConfig>,
    path: Seq<char>,
    from: int,
    k: int,
    n: nat,
    slashes: Seq<char>,
    rel: Seq<char>,
)
    requires
        0 <= from <= k <= routes.len(),
        forall|j: int|
            from <= j < k ==> (#[trigger] routes[j]).root is None || !begins_with(
                path,
                routes[j].path@,
            ),
        k < routes.len() ==> {
            let own = routes[k].path@;
            &&& routes[k].root is Some
            &&& n > 0
            &&& path == copies_of(own, n) + slashes + rel
            &&& is_all(slashes, |c: char| c == '/')
            &&& rel.len() > 0 ==> rel[0] != '/'
            &&& own.len() > 0 ==> !begins_with(slashes + rel, own)
        },
    ensures
        scripts_from(routes, path, from) == if k < routes.len() {
            let root = routes[k].root->0@;
            StepView::Probe {
                route: k,
                script: if root.len() == 0 || root.last() == '/' {
                    root + rel
                } else {
                    root + "/"@ + rel
                },
            }
        } else {
            StepView::Nothing
        },
    decreases k - from,
{
    reveal_strlit("/");
    if from < k {
        law_first_covering_route_is_tried(routes, path, from + 1, k, n, slashes, rel);
    } else if k < routes.len() {
        let own = routes[k].path@;
        let rest = slashes + rel;
        let fewer = copies_of(own, (n - 1) as nat);
        assert(path =~= own + (fewer + rest));
        law_begins_with(path, own, fewer + rest);
        assert(path =~= copies_of(own, n) + rest);
        if own.len() > 0 {
            lemma_copies_stripped(own, n, rest);
        } else {
            lemma_copies_of_nothing(own, n);
            assert(path =~= rest);
        }
        assert(strip_copies(path, own) == rest);
        assert(is_all(slashes, only('/')));
        lemma_trim_start_takes_off(slashes, rel, only('/'));
        let root = routes[k].root->0@;
        assert("/"@ =~= seq!['/']);
    }
}

/// Copies of nothing are nothing.
proof fn lemma_copies_of_nothing(s: Seq<char>, n: nat)
    requires
        s.len() == 0,
    ensures
        copies_of(s, n).len() == 0,
    decreases n,
{
    if n > 0 {
        lemma_copies_of_nothing(s, (n - 1) as nat);
    }
}

/// The routes that are searched are those of the server that the request is for.
pub proof fn law_routes_are_those_of_the_server(config: Config, server_idx: int)
    ensures
        0 <= server_idx < config.servers@.len() ==> routes_of(config, server_idx)
            == config.servers@[server_idx].routes@,
        !(0 <= server_idx < config.servers@.len()) ==> routes_of(config, server_idx)
            == Seq::<RouteConfig>::empty(),
{
}

/// A script without an extension is run only by a mapping for none.
pub proof fn law_scripts_without_extension_fit_no_other_mapping(
    routes: Seq<RouteConfig>,
    path: Seq<char>,
    body: Seq<u8>,
    k: int,
)
    requires
        0 <= k < routes.len(),
        extension(script_path(routes[k], path)) is None,
        forall|j: int|
            0 <= j < routes[k].cgi@.len() ==> lowercase((#[trigger] routes[k].cgi@[j]).extension@)
                != Seq::<char>::empty() || is_all(
                routes[k].cgi@[j].command@,
                |c: char| is_white(c),
            ),
    ensures
        search_probed(routes, path, body, k, true) == scripts_from(routes, path, k + 1),
{
    let none = Seq::<char>::empty();
    assert(lowercase(none) =~= none);
    lemma_mappings_skipped(routes, path, body, k, routes[k].cgi@.len() as int, none, 0);
}

/// The mapping that runs a script goes by the script's extension, however its path is written,
/// and by none where it has none.
pub proof fn law_mappings_go_by_the_extension(
    routes: Seq<RouteConfig>,
    path: Seq<char>,
    body: Seq<u8>,
    k: int,
    m: int,
    ext: Seq<char>,
)
    requires
        0 <= k < routes.len(),
        0 <= m < routes[k].cgi@.len(),
        extension(script_path(routes[k], path)) == Some(ext) || (extension(
            script_path(routes[k], path),
        ) is None && ext.len() == 0),
        lowercase(routes[k].cgi@[m].extension@) == lowercase(ext),
        !is_all(routes[k].cgi@[m].command@, |c: char| is_white(c)),
        forall|j: int|
            0 <= j < m ==> lowercase((#[trigger] routes[k].cgi@[j]).extension@) != lowercase(ext)
                || is_all(routes[k].cgi@[j].command@, |c: char| is_white(c)),
    ensures
        ({
            let step = search_probed(routes, path, body, k, true);
            let script = script_path(routes[k], path);
            let given = words(routes[k].cgi@[m].command@);
            &&& step is Run
            &&& step->Run_route == k
            &&& step->mapping == m
            &&& seq![step->command.program] + step->command.args == given.push(script)
            &&& step->command.script == script
            &&& step->command.directory == parent(script)
            &&& step->command.path_info == path
            &&& step->command.input == body
        }),
{
    let command = routes[k].cgi@[m].command@;
    if ext.len() == 0 {
        assert(ext =~= seq![]);
    }
    lemma_mappings_skipped(routes, path, body, k, m, ext, 0);
    lemma_some_words(command);
    let given = words(command);
    let script = script_path(routes[k], path);
    assert(seq![given[0]] + given.skip(1).push(script) =~= given.push(script));
}

/// A text that is not all white space has words.
proof fn lemma_some_words(s: Seq<char>)
    requires
        !is_all(s, |c: char| is_white(c)),
    ensures
        words(s).len() > 0,
    decreases s.len(),
{
    let p = |c: char| is_white(c);
    let i = choose|i: int| 0 <= i < s.len() && !p(#[trigger] s[i]);
    if is_white(s[0]) {
        assert(i > 0);
        assert(s.skip(1)[i - 1] == s[i]);
        assert(!is_all(s.skip(1), p));
        lemma_some_words(s.skip(1));
    } else {
        lemma_word_len(s);
    }
}

} // verus!
