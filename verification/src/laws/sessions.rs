//! Sessions and cookies over several requests.
use std::collections::hash_map::DefaultHasher;
use vstd::bytes::{lemma_auto_spec_u128_to_from_le_bytes, spec_u128_from_le_bytes};
use vstd::prelude::*;
use vstd::std_specs::hash::DefaultHasherAdditionalSpecFns;

use crate::laws::numbers::{
    law_decimal_is_read_back, law_numbers_are_written_by_places, lemma_digits,
};
use crate::numbers::{decimal, digits_value, hexadecimal, i32_value};
use crate::pages::visits;
use crate::request::RequestView;
use crate::response::ResponseView;
use crate::server::{
    chosen_id, is_known, offered_id, script_session_id, sessions_after, sessions_after_script,
    sessions_ready, set_cookie, visits_before, with_session,
};
use crate::session::{default_hash, is_live, keyed_by_id, session_id, Moment, SessionView};
use crate::table::{distinct_keys, lemma_put, mapping};

verus! {

/// The session that an answer names is known afterwards, and was used at that moment.
pub proof fn law_named_session_is_known(
    sessions: Map<Seq<char>, SessionView>,
    request: RequestView,
    moment: Moment,
)
    ensures
        ({
            let id = chosen_id(sessions, request, moment);
            let after = sessions_after(sessions, request, moment);
            &&& after.contains_key(id)
            &&& after[id].last_accessed == moment.now
            &&& is_live(after[id], moment.now)
        }),
{
}

/// A session that another request is handled in stays exactly as it is while it is within
/// the time limit, and is gone as soon as it is past it.
pub proof fn law_idle_sessions_expire(
    sessions: Map<Seq<char>, SessionView>,
    request: RequestView,
    moment: Moment,
    id: Seq<char>,
)
    requires
        id != chosen_id(sessions, request, moment),
    ensures
        sessions_after(sessions, request, moment).contains_key(id) <==> sessions.contains_key(id)
            && is_live(sessions[id], moment.now),
        sessions_after(sessions, request, moment).contains_key(id) ==> sessions_after(
            sessions,
            request,
            moment,
        )[id] == sessions[id],
{
}

/// Every session stands under its own identifier, whatever requests are handled.
pub proof fn law_sessions_are_keyed_by_id(
    sessions: Map<Seq<char>, SessionView>,
    request: RequestView,
    moment: Moment,
)
    requires
        keyed_by_id(sessions),
    ensures
        keyed_by_id(sessions_after(sessions, request, moment)),
        keyed_by_id(sessions_after_script(sessions, request, moment)),
{
}

/// A request without a session cookie that a script answers opens the session that the
/// answer names; a request with one leaves the sessions alone.
pub proof fn law_scripts_open_sessions(
    sessions: Map<Seq<char>, SessionView>,
    request: RequestView,
    moment: Moment,
)
    ensures
        offered_id(request) is None ==> sessions_after_script(
            sessions,
            request,
            moment,
        ).contains_key(script_session_id(request, moment)),
        offered_id(request) is Some ==> sessions_after_script(sessions, request, moment)
            == sessions,
{
}

/// A GET request counts one visit in its session, and a request that names the session
/// next finds the visit counted.
pub proof fn law_visit_is_counted(
    sessions: Map<Seq<char>, SessionView>,
    request: RequestView,
    moment: Moment,
    next: RequestView,
)
    requires
        request.method is GET,
        visits_before(sessions, request) < i32::MAX,
        offered_id(next) == Some(chosen_id(sessions, request, moment)),
    ensures
        visits_before(sessions_after(sessions, request, moment), next) == visits_before(
            sessions,
            request,
        ) + 1,
{
    let id = chosen_id(sessions, request, moment);
    let ready = sessions_ready(sessions, request, moment);
    let count = visits_before(sessions, request);
    assert(visits(ready[id].data) == count);
    assert(i32::MIN <= count) by {
        lemma_visits_fit(ready[id].data);
    }
    law_decimal_is_read_back((count + 1) as i32);
}

/// The visits that a session has counted fit in an `i32`.
proof fn lemma_visits_fit(data: Map<Seq<char>, Seq<char>>)
    ensures
        i32::MIN <= visits(data) <= i32::MAX,
{
}

/// The sessions after the requests of a log have been handled one after the other.
pub open spec fn sessions_through(
    sessions: Map<Seq<char>, SessionView>,
    log: Seq<(RequestView, Moment)>,
) -> Map<Seq<char>, SessionView>
    decreases log.len(),
{
    if log.len() == 0 {
        sessions
    } else {
        sessions_after(sessions_through(sessions, log.drop_last()), log.last().0, log.last().1)
    }
}

/// The visits of one visitor are numbered from one on: where the first GET request opens a
/// session and every later one names it, the last one of `n` requests is the `n`-th visit.
pub proof fn law_visits_are_numbered(
    sessions: Map<Seq<char>, SessionView>,
    log: Seq<(RequestView, Moment)>,
)
    requires
        0 < log.len() <= i32::MAX,
        !is_known(sessions, log[0].0),
        forall|i: int| 0 <= i < log.len() ==> (#[trigger] log[i]).0.method is GET,
        forall|i: int|
            0 < i < log.len() ==> offered_id((#[trigger] log[i]).0) == Some(session_id(log[0].1)),
    ensures
        visits_before(sessions_through(sessions, log.drop_last()), log.last().0) + 1 == log.len(),
        chosen_id(sessions_through(sessions, log.drop_last()), log.last().0, log.last().1)
            == session_id(log[0].1),
    decreases log.len(),
{
    let before = log.drop_last();
    if log.len() == 1 {
        assert(before =~= seq![]);
    } else {
        assert forall|i: int| 0 <= i < before.len() implies (
        #[trigger] before[i]).0.method is GET by {
            assert(before[i] == log[i]);
        }
        assert forall|i: int| 0 < i < before.len() implies offered_id((#[trigger] before[i]).0)
            == Some(session_id(before[0].1)) by {
            assert(before[i] == log[i]);
        }
        law_visits_are_numbered(sessions, before);
        let earlier = sessions_through(sessions, before.drop_last());
        assert(before.last() == log[log.len() - 2]);
        assert(log.last() == log[log.len() - 1]);
        law_visit_is_counted(earlier, before.last().0, before.last().1, log.last().0);
        law_named_session_is_known(earlier, before.last().0, before.last().1);
    }
}

/// An answer carries the cookie of its session, and beside it the headers that it had.
pub proof fn law_answer_carries_cookie(response: ResponseView, id: Seq<char>)
    requires
        distinct_keys(response.headers),
    ensures
        ({
            let answer = with_session(response, id);
            &&& mapping(answer.headers) == mapping(response.headers).insert(
                "Set-Cookie"@,
                set_cookie(id),
            )
            &&& distinct_keys(answer.headers)
            &&& answer.status == response.status
            &&& answer.content_type == response.content_type
            &&& answer.body == response.body
        }),
{
    lemma_put(response.headers, "Set-Cookie"@, set_cookie(id));
}

/// A request is handled in the session that it names, where the server knows it, and
/// otherwise in a new one; what it had stored is there as it was, but for the count of visits,
/// and nothing is stored in a new one but that count.
pub proof fn law_stored_data_is_kept(
    sessions: Map<Seq<char>, SessionView>,
    request: RequestView,
    moment: Moment,
    key: Seq<char>,
)
    requires
        key != "visit_count"@ || !(request.method is GET),
    ensures
        ({
            let id = chosen_id(sessions, request, moment);
            let after = sessions_after(sessions, request, moment)[id];
            let named = match offered_id(request) {
                Some(offered) => sessions.contains_key(offered),
                None => false,
            };
            &&& after.id == if named {
                sessions[offered_id(request)->0].id
            } else {
                session_id(moment)
            }
            &&& named ==> id == offered_id(request)->0 && after.data.contains_key(key)
                == sessions[id].data.contains_key(key) && (after.data.contains_key(key)
                ==> after.data[key] == sessions[id].data[key])
            &&& !named ==> id == session_id(moment) && !after.data.contains_key(key)
        }),
{
}

/// A session that another request is handled in is kept for half an hour after its last use:
/// it is there as long as less than that has passed, and gone from then on.
pub proof fn law_sessions_live_half_an_hour(
    sessions: Map<Seq<char>, SessionView>,
    request: RequestView,
    moment: Moment,
    id: Seq<char>,
)
    requires
        id != chosen_id(sessions, request, moment),
        sessions.contains_key(id),
    ensures
        sessions_after(sessions, request, moment).contains_key(id) <==> moment.now
            < sessions[id].last_accessed + 30 * 60 * 1_000_000_000,
{
}

/// The identifier of a new session is the number of its moment in hexadecimal, so that
/// different numbers give different identifiers.
pub proof fn law_identifiers_tell_numbers_apart(a: Moment, b: Moment)
    ensures
        digits_value(session_id(a), 16) == Some(a.number as nat),
        session_id(a) == session_id(b) ==> a.number == b.number,
        a.number == b.number ==> session_id(a) == session_id(b),
        a.number < 16 ==> session_id(a) == seq!["0123456789abcdef"@[a.number as int]],
{
    lemma_digits(a.number as nat, 16);
    lemma_digits(b.number as nat, 16);
    if a.number < 16 {
        law_numbers_are_written_by_places(0, a.number as nat);
    }
}

/// The number of a moment is what the hasher makes of all sixteen bytes of the clock's time.
pub proof fn law_moments_are_hashed_whole(unix_nanos: u128, bytes: Seq<u8>)
    requires
        bytes.len() == 16,
        spec_u128_from_le_bytes(bytes) == unix_nanos,
    ensures
        default_hash(unix_nanos) == DefaultHasher::spec_finish(seq![bytes]),
{
    lemma_auto_spec_u128_to_from_le_bytes();
}

/// A session that has counted nothing, or something that is no number, has no visits; one
/// that has stored the decimal form of a number has as many.
pub proof fn law_visits_are_the_stored_number(data: Map<Seq<char>, Seq<char>>, n: i32)
    ensures
        !data.contains_key("visit_count"@) ==> visits(data) == 0,
        visits(data.insert("visit_count"@, decimal(n as int))) == n,
        data.contains_key("visit_count"@) && i32_value(data["visit_count"@]) is None ==> visits(
            data,
        ) == 0,
{
    law_decimal_is_read_back(n);
}

/// The answer of a script names the session that the client named, known or not, and leaves
/// the sessions as they are; a client that named none gets a new one under the number of the
/// moment, without data, and the other sessions stay.
pub proof fn law_script_answers_name_the_session(
    sessions: Map<Seq<char>, SessionView>,
    request: RequestView,
    moment: Moment,
    id: Seq<char>,
    other: Seq<char>,
)
    ensures
        ({
            let named = script_session_id(request, moment);
            let after = sessions_after_script(sessions, request, moment);
            &&& offered_id(request) == Some(id) ==> named == id && after == sessions
            &&& offered_id(request) is None ==> {
                &&& named == hexadecimal(moment.number as nat)
                &&& after.contains_key(named)
                &&& after[named] == (SessionView {
                    id: named,
                    data: Map::empty(),
                    last_accessed: moment.now,
                })
                &&& other != named ==> (after.contains_key(other) <==> sessions.contains_key(other))
                &&& other != named && sessions.contains_key(other) ==> after[other]
                    == sessions[other]
            }
        }),
{
}

} // verus!
