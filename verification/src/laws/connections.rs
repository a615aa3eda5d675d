//! Listeners and connections over several events.
use vstd::prelude::*;

use crate::config::{Config, ServerConfig};
use crate::connection::{Connection, Readiness, REQUEST_TIMEOUT};
use crate::listen::{
    bindings_for_ports, bindings_of, host_of, listed_before, next_wish, BindingView,
};
use crate::numbers::decimal;
use crate::server::{default_server, Server};

verus! {

/// The next wish lies in the list and is the first one that is new.
pub proof fn lemma_next_wish(wishes: Seq<BindingView>, bound: Seq<Seq<char>>, from: int)
    ensures
        match next_wish(wishes, bound, from) {
            Some(i) => 0 <= from <= i < wishes.len() && !listed_before(wishes, i)
                && !bound.contains(wishes[i].address) && (forall|j: int|
                from <= j < i ==> listed_before(wishes, j) || bound.contains(
                    (#[trigger] wishes[j]).address,
                )),
            None => 0 <= from ==> forall|j: int|
                from <= j < wishes.len() ==> listed_before(wishes, j) || bound.contains(
                    (#[trigger] wishes[j]).address,
                ),
        },
    decreases wishes.len() - from,
{
    if from < 0 || from >= wishes.len() {
    } else if listed_before(wishes, from) || bound.contains(wishes[from].address) {
        lemma_next_wish(wishes, bound, from + 1);
    }
}

/// The wishes that are granted one after the other from `from` on, where the socket that is
/// bound for the wish `i` reports itself at `reported(i)`.
pub open spec fn granted(
    wishes: Seq<BindingView>,
    reported: spec_fn(int) -> Seq<char>,
    bound: Seq<Seq<char>>,
    from: int,
) -> Seq<int>
    decreases wishes.len() - from,
{
    match next_wish(wishes, bound, from) {
        None => seq![],
        Some(i) => {
            proof {
                lemma_next_wish(wishes, bound, from);
            }
            seq![i] + granted(wishes, reported, bound.push(reported(i)), i + 1)
        },
    }
}

/// The first server that lists an address gets it, at whatever addresses the sockets report
/// themselves: exactly those wishes are granted whose address no earlier wish has and no
/// earlier socket reports.
pub proof fn law_first_server_wins(
    wishes: Seq<BindingView>,
    reported: spec_fn(int) -> Seq<char>,
    i: int,
)
    requires
        0 <= i < wishes.len(),
    ensures
        granted(wishes, reported, seq![], 0).contains(i) <==> !listed_before(wishes, i) && forall|
            g: int,
        | #[trigger]
            granted(wishes, reported, seq![], 0).contains(g) && g < i ==> reported(g)
                != wishes[i].address,
{
    lemma_granted(wishes, reported, seq![], 0, i);
}

/// What is granted from `from` on.
proof fn lemma_granted(
    wishes: Seq<BindingView>,
    reported: spec_fn(int) -> Seq<char>,
    bound: Seq<Seq<char>>,
    from: int,
    i: int,
)
    requires
        0 <= from,
    ensures
        ({
            let all = granted(wishes, reported, bound, from);
            &&& all.contains(i) ==> from <= i < wishes.len()
            &&& from <= i < wishes.len() ==> (all.contains(i) <==> !listed_before(wishes, i)
                && !bound.contains(wishes[i].address) && forall|g: int| #[trigger]
                all.contains(g) && g < i ==> reported(g) != wishes[i].address)
        }),
    decreases wishes.len() - from,
{
    lemma_next_wish(wishes, bound, from);
    match next_wish(wishes, bound, from) {
        None => {},
        Some(k) => {
            let more = bound.push(reported(k));
            let rest = granted(wishes, reported, more, k + 1);
            let all = granted(wishes, reported, bound, from);
            assert(all == seq![k] + rest);
            assert forall|g: int| #[trigger] all.contains(g) == (g == k || rest.contains(g)) by {
                if all.contains(g) {
                    let x = choose|x: int| 0 <= x < all.len() && all[x] == g;
                    if x > 0 {
                        assert(rest[x - 1] == g);
                    }
                }
                if rest.contains(g) {
                    let x = choose|x: int| 0 <= x < rest.len() && rest[x] == g;
                    assert(all[x + 1] == g);
                }
                assert(all[0] == k);
            }
            assert forall|g: int| rest.contains(g) implies k < g by {
                lemma_granted(wishes, reported, more, k + 1, g);
            }
            lemma_granted(wishes, reported, more, k + 1, i);
            if k < i < wishes.len() {
                let address = wishes[i].address;
                assert(more.contains(address) == (bound.contains(address) || reported(k)
                    == address)) by {
                    if more.contains(address) {
                        let x = choose|x: int| 0 <= x < more.len() && more[x] == address;
                        if x < bound.len() {
                            assert(bound[x] == address);
                        }
                    }
                    if bound.contains(address) {
                        let x = choose|x: int| 0 <= x < bound.len() && bound[x] == address;
                        assert(more[x] == address);
                    }
                    assert(more[bound.len() as int] == reported(k));
                }
                if !listed_before(wishes, i) && !bound.contains(address) && (forall|g: int|
                    #[trigger]
                    all.contains(g) && g < i ==> reported(g) != address) {
                    assert(all.contains(k));
                    assert forall|g: int| #[trigger] rest.contains(g) && g < i implies reported(g)
                        != address by {
                        assert(all.contains(g));
                    }
                }
                if rest.contains(i) {
                    assert forall|g: int| #[trigger] all.contains(g) && g < i implies reported(g)
                        != address by {
                        if g != k {
                            assert(rest.contains(g));
                        }
                    }
                }
            } else if i == k {
                assert forall|g: int| #[trigger] all.contains(g) && g < i implies reported(g)
                    != wishes[i].address by {
                    if g != k {
                        assert(rest.contains(g));
                    }
                }
            } else if from <= i < k {
                assert(listed_before(wishes, i) || bound.contains(wishes[i].address));
            }
        },
    }
}

/// Every wish is for a port of a server that has ports, at the server's host.
pub proof fn law_wishes_are_of_servers_with_ports(servers: Seq<ServerConfig>, n: int, i: int)
    requires
        0 <= n <= servers.len(),
        0 <= i < bindings_of(servers, n).len(),
    ensures
        ({
            let wish = bindings_of(servers, n)[i];
            &&& 0 <= wish.server_idx < n
            &&& servers[wish.server_idx].ports is Some
            &&& exists|p: int|
                0 <= p < (servers[wish.server_idx].ports->0)@.len() && wish.address == host_of(
                    servers[wish.server_idx],
                ) + ":"@ + decimal(
                    #[trigger] (servers[wish.server_idx].ports->0)@[p] as int,
                )
        }),
    decreases n,
{
    if n > 0 {
        let before = bindings_of(servers, n - 1);
        if i < before.len() {
            law_wishes_are_of_servers_with_ports(servers, n - 1, i);
        } else if servers[n - 1].ports is Some {
            let ports = (servers[n - 1].ports->0)@;
            lemma_ports(host_of(servers[n - 1]), ports, ports.len() as int, n - 1, i - before.len());
        }
    }
}

/// The addresses for ports stand in the order of the ports.
proof fn lemma_ports(host: Seq<char>, ports: Seq<u16>, n: int, server_idx: int, i: int)
    requires
        0 <= n <= ports.len(),
        0 <= i < bindings_for_ports(host, ports, n, server_idx).len(),
    ensures
        i < n,
        bindings_for_ports(host, ports, n, server_idx)[i] == (BindingView {
            address: host + ":"@ + decimal(ports[i] as int),
            server_idx,
        }),
        bindings_for_ports(host, ports, n, server_idx).len() == n,
    decreases n,
{
    if n > 0 {
        let before = bindings_for_ports(host, ports, n - 1, server_idx);
        lemma_ports_len(host, ports, n - 1, server_idx);
        if i < before.len() {
            lemma_ports(host, ports, n - 1, server_idx, i);
        }
    }
}

/// There is one address for each port.
proof fn lemma_ports_len(host: Seq<char>, ports: Seq<u16>, n: int, server_idx: int)
    requires
        0 <= n,
    ensures
        bindings_for_ports(host, ports, n, server_idx).len() == n,
    decreases n,
{
    if n > 0 {
        lemma_ports_len(host, ports, n - 1, server_idx);
    }
}

/// Every noted listener is for a server that has ports.
pub open spec fn listeners_fit(listeners: Map<i32, usize>, servers: Seq<ServerConfig>) -> bool {
    forall|fd: i32| #[trigger]
        listeners.contains_key(fd) ==> listeners[fd] < servers.len()
            && servers[listeners[fd] as int].ports is Some
}

/// Every noted listener is for a server that has ports: that holds of none, and stays so when
/// the socket of a wish is noted for the server of the wish.
pub proof fn law_listeners_are_of_servers_with_ports(
    listeners: Map<i32, usize>,
    servers: Seq<ServerConfig>,
    i: int,
    fd: i32,
    server_idx: usize,
)
    requires
        listeners_fit(listeners, servers),
        0 <= i < bindings_of(servers, servers.len() as int).len(),
        server_idx == bindings_of(servers, servers.len() as int)[i].server_idx,
    ensures
        listeners_fit(Map::empty(), servers),
        listeners_fit(listeners.insert(fd, server_idx), servers),
{
    law_wishes_are_of_servers_with_ports(servers, servers.len() as int, i);
}

/// The noted listeners once the sockets with the descriptors `fds` have been noted, one after
/// the other, for the servers of the granted wishes.
pub open spec fn noted(wishes: Seq<BindingView>, grants: Seq<int>, fds: Seq<i32>) -> Map<i32, usize>
    decreases fds.len(),
{
    if fds.len() == 0 {
        Map::empty()
    } else {
        noted(wishes, grants, fds.drop_last()).insert(
            fds.last(),
            wishes[grants[fds.len() - 1]].server_idx as usize,
        )
    }
}

/// What is noted after some of the sockets.
proof fn lemma_noted(wishes: Seq<BindingView>, grants: Seq<int>, fds: Seq<i32>)
    requires
        fds.no_duplicates(),
    ensures
        forall|fd: i32| #[trigger]
            noted(wishes, grants, fds).contains_key(fd) <==> fds.contains(fd),
        forall|k: int|
            0 <= k < fds.len() ==> noted(wishes, grants, fds)[#[trigger] fds[k]]
                == wishes[grants[k]].server_idx as usize,
        noted(wishes, grants, fds).dom().finite(),
        noted(wishes, grants, fds).len() == fds.len(),
    decreases fds.len(),
{
    if fds.len() > 0 {
        let before = fds.drop_last();
        let map = noted(wishes, grants, fds);
        let n = fds.len() - 1;
        assert(before.no_duplicates());
        lemma_noted(wishes, grants, before);
        assert forall|fd: i32| #[trigger] map.contains_key(fd) <==> fds.contains(fd) by {
            if before.contains(fd) {
                let k = choose|k: int| 0 <= k < before.len() && before[k] == fd;
                assert(fds[k] == fd);
            }
            if fds.contains(fd) {
                let k = choose|k: int| 0 <= k < fds.len() && fds[k] == fd;
                if k < n {
                    assert(before[k] == fd);
                }
            }
            assert(fds[n] == fds.last());
        }
        assert forall|k: int| 0 <= k < fds.len() implies map[#[trigger] fds[k]]
            == wishes[grants[k]].server_idx as usize by {
            if k < n {
                assert(before[k] == fds[k]);
                assert(fds[k] != fds[n]);
            }
        }
        if before.contains(fds.last()) {
            let k = choose|k: int| 0 <= k < before.len() && before[k] == fds.last();
            assert(fds[k] == fds[n]);
        }
    }
}

/// The granted wishes are among the wishes.
proof fn lemma_granted_in_range(
    wishes: Seq<BindingView>,
    reported: spec_fn(int) -> Seq<char>,
    k: int,
)
    requires
        0 <= k < granted(wishes, reported, seq![], 0).len(),
    ensures
        0 <= granted(wishes, reported, seq![], 0)[k] < wishes.len(),
{
    let all = granted(wishes, reported, seq![], 0);
    assert(all.contains(all[k]));
    lemma_granted(wishes, reported, seq![], 0, all[k]);
}

/// The listeners of a server once all its sockets have been noted: they are exactly the
/// sockets, each for the server of its wish, and that is a server that has ports.
pub proof fn law_listeners_are_the_sockets(
    config: Config,
    reported: spec_fn(int) -> Seq<char>,
    fds: Seq<i32>,
)
    requires
        fds.no_duplicates(),
        fds.len() == granted(
            bindings_of(config.servers@, config.servers@.len() as int),
            reported,
            seq![],
            0,
        ).len(),
    ensures
        ({
            let wishes = bindings_of(config.servers@, config.servers@.len() as int);
            let grants = granted(wishes, reported, seq![], 0);
            let listeners = noted(wishes, grants, fds);
            &&& forall|fd: i32| #[trigger] listeners.contains_key(fd) <==> fds.contains(fd)
            &&& listeners.len() == fds.len()
            &&& forall|k: int|
                0 <= k < fds.len() ==> listeners[#[trigger] fds[k]]
                    == wishes[grants[k]].server_idx
            &&& listeners_fit(listeners, config.servers@)
        }),
{
    let servers = config.servers@;
    let wishes = bindings_of(servers, servers.len() as int);
    let grants = granted(wishes, reported, seq![], 0);
    let listeners = noted(wishes, grants, fds);
    assert(config.servers.len() == servers.len());
    lemma_noted(wishes, grants, fds);
    assert forall|k: int| 0 <= k < fds.len() implies listeners[#[trigger] fds[k]]
        == wishes[grants[k]].server_idx && listeners[fds[k]] < servers.len()
        && servers[listeners[fds[k]] as int].ports is Some by {
        lemma_granted_in_range(wishes, reported, k);
        law_wishes_are_of_servers_with_ports(servers, servers.len() as int, grants[k]);
    }
    assert forall|fd: i32| #[trigger] listeners.contains_key(fd) implies listeners[fd]
        < servers.len() && servers[listeners[fd] as int].ports is Some by {
        let k = choose|k: int| 0 <= k < fds.len() && fds[k] == fd;
        assert(fds[k] == fd);
    }
}

/// A connection that comes in at a listener is for the server that the listener was noted
/// for, whatever other listeners are noted afterwards.
pub proof fn law_listener_serves_its_server(
    listeners: Map<i32, usize>,
    fd: i32,
    server_idx: usize,
    other: i32,
    other_idx: usize,
)
    requires
        other != fd,
    ensures
        default_server(listeners.insert(fd, server_idx), fd) == server_idx,
        default_server(listeners.insert(fd, server_idx).insert(other, other_idx), fd)
            == server_idx,
{
}

/// What happens at a listener is never taken for what happens at a connection.
pub proof fn law_listeners_only_accept(server: Server, fd: i32, ready: Readiness)
    ensures
        server.dispatch_of(fd, ready) is Accept <==> server.listener_map@.contains_key(fd),
{
}

/// A connection that was active is let go once more than the time limit has passed since,
/// and not before.
pub proof fn law_idle_connections_time_out(connection: Connection, active: u128, now: u128)
    ensures
        (Connection { last_activity: active, ..connection }).is_idle(now) <==> now > active
            + REQUEST_TIMEOUT,
{
}

/// How many ports the first `n` servers list.
pub open spec fn ports_before(servers: Seq<ServerConfig>, n: int) -> int
    decreases n,
{
    if n <= 0 {
        0
    } else {
        ports_before(servers, n - 1) + match servers[n - 1].ports {
            Some(ports) => ports@.len() as int,
            None => 0,
        }
    }
}

/// There are as many wishes as ports.
proof fn lemma_wish_count(servers: Seq<ServerConfig>, n: int)
    requires
        0 <= n <= servers.len(),
    ensures
        bindings_of(servers, n).len() == ports_before(servers, n),
    decreases n,
{
    if n > 0 {
        lemma_wish_count(servers, n - 1);
        if servers[n - 1].ports is Some {
            let ports = (servers[n - 1].ports->0)@;
            lemma_ports_len(host_of(servers[n - 1]), ports, ports.len() as int, n - 1);
        }
    }
}

/// Every port of every server is wished for, server by server and port by port: at the host
/// that the server names, or on the local machine where it names none.
pub proof fn law_every_port_is_wished_for(servers: Seq<ServerConfig>, n: int, s: int, p: int)
    requires
        0 <= s < n <= servers.len(),
        servers[s].ports is Some,
        0 <= p < (servers[s].ports->0)@.len(),
    ensures
        bindings_of(servers, n).len() == ports_before(servers, n),
        0 <= ports_before(servers, s) + p < bindings_of(servers, n).len(),
        bindings_of(servers, n)[ports_before(servers, s) + p] == (BindingView {
            address: match servers[s].server_address {
                Some(host) => host@,
                None => "127.0.0.1"@,
            } + ":"@ + decimal((servers[s].ports->0)@[p] as int),
            server_idx: s,
        }),
    decreases n,
{
    lemma_wish_count(servers, n);
    lemma_wish_count(servers, n - 1);
    lemma_wish_count(servers, s);
    if s < n - 1 {
        law_every_port_is_wished_for(servers, n - 1, s, p);
    } else {
        let ports = (servers[s].ports->0)@;
        lemma_ports_len(host_of(servers[s]), ports, ports.len() as int, s);
        lemma_ports(host_of(servers[s]), ports, ports.len() as int, s, p);
    }
}

/// No address is granted twice, and the first wish for an address that no socket reports is
/// granted.
pub proof fn law_addresses_are_granted_once(
    wishes: Seq<BindingView>,
    reported: spec_fn(int) -> Seq<char>,
    i: int,
    j: int,
)
    requires
        0 <= i < wishes.len(),
        0 <= j < wishes.len(),
    ensures
        ({
            let all = granted(wishes, reported, seq![], 0);
            &&& i != j && all.contains(i) && all.contains(j) ==> wishes[i].address
                != wishes[j].address
            &&& (forall|k: int| 0 <= k < i ==> (#[trigger] wishes[k]).address != wishes[i].address)
                && (forall|g: int| #[trigger] all.contains(g) ==> reported(g)
                != wishes[i].address) ==> all.contains(i)
        }),
{
    law_first_server_wins(wishes, reported, i);
    law_first_server_wins(wishes, reported, j);
}

/// An event at a listener is a new connection; at a connection, an error or a hang-up ends it,
/// what can be read is read, and nothing else is done.
pub proof fn law_events_are_dispatched(server: Server, fd: i32, ready: Readiness)
    ensures
        server.listener_map@.contains_key(fd) ==> server.dispatch_of(fd, ready) is Accept,
        !server.listener_map@.contains_key(fd) ==> {
            let what = server.dispatch_of(fd, ready);
            &&& what is Remove <==> ready.error || ready.hangup
            &&& what is Read <==> ready.readable && !ready.error && !ready.hangup
            &&& what is Ignore <==> !ready.readable && !ready.error && !ready.hangup
        },
{
}

/// A connection may be idle for thirty seconds and not longer; and one that comes in at a
/// listener that was never noted is for the first server.
pub proof fn law_thirty_seconds_and_the_first_server(
    connection: Connection,
    now: u128,
    listeners: Map<i32, usize>,
    fd: i32,
)
    ensures
        connection.is_idle(now) <==> now > connection.last_activity + 30 * 1_000_000_000,
        !listeners.contains_key(fd) ==> default_server(listeners, fd) == 0,
{
}

} // verus!
