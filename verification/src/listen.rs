//! The addresses at which the server listens.
use vstd::prelude::*;

use crate::cgi::string_views;
use crate::config::{Config, ServerConfig};
use crate::numbers::{decimal, write_length};
use crate::text::same_text;

verus! {

/// An address to listen at, and the server that asks for it.
#[verifier::ext_equal]
pub struct BindingView {
    pub address: Seq<char>,
    pub server_idx: int,
}

/// An address to listen at, and the server that asks for it.
pub struct Binding {
    pub address: String,
    pub server_idx: usize,
}

impl View for Binding {
    type V = BindingView;

    open spec fn view(&self) -> BindingView {
        BindingView { address: self.address@, server_idx: self.server_idx as int }
    }
}

/// The addresses that a list of bindings stands for.
pub open spec fn binding_views(list: Seq<Binding>) -> Seq<BindingView> {
    Seq::new(list.len(), |i: int| list[i]@)
}

/// The host of a server; the local machine where it names none.
pub open spec fn host_of(server: ServerConfig) -> Seq<char> {
    match server.server_address {
        Some(host) => host@,
        None => "127.0.0.1"@,
    }
}

/// The addresses for the first `n` ports of a server.
pub open spec fn bindings_for_ports(host: Seq<char>, ports: Seq<u16>, n: int, server_idx: int) -> Seq<
    BindingView,
>
    decreases n,
{
    if n <= 0 {
        seq![]
    } else {
        bindings_for_ports(host, ports, n - 1, server_idx).push(
            BindingView { address: host + ":"@ + decimal(ports[n - 1] as int), server_idx },
        )
    }
}

/// The addresses for the ports of a server.
pub open spec fn bindings_of_server(server: ServerConfig, server_idx: int) -> Seq<BindingView> {
    match server.ports {
        Some(ports) => bindings_for_ports(
            host_of(server),
            ports@,
            ports@.len() as int,
            server_idx,
        ),
        None => seq![],
    }
}

/// The addresses that the first `n` servers ask for, in their order.
pub open spec fn bindings_of(servers: Seq<ServerConfig>, n: int) -> Seq<BindingView>
    decreases n,
{
    if n <= 0 {
        seq![]
    } else {
        bindings_of(servers, n - 1) + bindings_of_server(servers[n - 1], n - 1)
    }
}

/// An earlier wish has the same address.
pub open spec fn listed_before(wishes: Seq<BindingView>, i: int) -> bool {
    exists|j: int| 0 <= j < i && (#[trigger] wishes[j]).address == wishes[i].address
}

/// The first wish, at `from` or later, for an address that no earlier wish has and at which
/// no socket reports itself.
pub open spec fn next_wish(wishes: Seq<BindingView>, bound: Seq<Seq<char>>, from: int) -> Option<int>
    decreases wishes.len() - from,
{
    if from < 0 || from >= wishes.len() {
        None
    } else if listed_before(wishes, from) || bound.contains(wishes[from].address) {
        next_wish(wishes, bound, from + 1)
    } else {
        Some(from)
    }
}

/// Lists the addresses that the servers ask for.
pub fn wanted_bindings(config: &Config) -> (r: Vec<Binding>)
    ensures
        binding_views(r@) == bindings_of(config.servers@, config.servers@.len() as int),
{
    let mut out: Vec<Binding> = Vec::new();
    let mut s: usize = 0;
    assert(binding_views(out@) =~= seq![]);
    while s < config.servers.len()
        invariant
            s <= config.servers@.len(),
            binding_views(out@) == bindings_of(config.servers@, s as int),
        decreases config.servers@.len() - s,
    {
        let ghost before = binding_views(out@);
        let server = &config.servers[s];
        let host = match &server.server_address {
            Some(host) => host.as_str(),
            None => "127.0.0.1",
        };
        if let Some(ports) = &server.ports {
            let mut p: usize = 0;
            assert(before + seq![] =~= before);
            while p < ports.len()
                invariant
                    p <= ports@.len(),
                    binding_views(out@) == before + bindings_for_ports(
                        host@,
                        ports@,
                        p as int,
                        s as int,
                    ),
                decreases ports@.len() - p,
            {
                let mut address = String::new();
                address.append(host);
                assert(address@ =~= host@);
                address.append(":");
                address.append(write_length(ports[p] as usize).as_str());
                let binding = Binding { address, server_idx: s };
                let ghost view = binding@;
                let ghost so_far = binding_views(out@);
                out.push(binding);
                assert(binding_views(out@) =~= so_far.push(view));
                p += 1;
            }
        } else {
            assert(before + seq![] =~= before);
        }
        s += 1;
    }
    out
}

/// Tells whether an earlier wish has the same address.
fn is_listed_before(wishes: &Vec<Binding>, i: usize) -> (b: bool)
    requires
        i < wishes@.len(),
    ensures
        b == listed_before(binding_views(wishes@), i as int),
{
    let ghost all = binding_views(wishes@);
    let mut j: usize = 0;
    while j < i
        invariant
            j <= i < wishes@.len(),
            all == binding_views(wishes@),
            forall|k: int| 0 <= k < j ==> (#[trigger] all[k]).address != all[i as int].address,
        decreases i - j,
    {
        if same_text(wishes[j].address.as_str(), wishes[i].address.as_str()) {
            assert(all[j as int].address == all[i as int].address);
            return true;
        }
        j += 1;
    }
    false
}

/// Finds the next wish for an address that is new; `bound` lists the addresses at which the
/// sockets so far report themselves.
pub fn next_binding(wishes: &Vec<Binding>, bound: &Vec<String>, from: usize) -> (r: Option<usize>)
    ensures
        match r {
            Some(i) => next_wish(binding_views(wishes@), string_views(bound@), from as int)
                == Some(i as int) && i < wishes@.len(),
            None => next_wish(binding_views(wishes@), string_views(bound@), from as int) is None,
        },
{
    let ghost all = binding_views(wishes@);
    let ghost taken = string_views(bound@);
    let mut i: usize = from;
    while i < wishes.len()
        invariant
            all == binding_views(wishes@),
            taken == string_views(bound@),
            next_wish(all, taken, from as int) == next_wish(all, taken, i as int),
        decreases wishes@.len() - i,
    {
        let mut k: usize = 0;
        while k < bound.len() && !same_text(bound[k].as_str(), wishes[i].address.as_str())
            invariant
                i < wishes@.len(),
                k <= bound@.len(),
                taken == string_views(bound@),
                forall|j: int| 0 <= j < k ==> #[trigger] taken[j] != wishes@[i as int].address@,
            decreases bound@.len() - k,
        {
            k += 1;
        }
        if k == bound.len() && !is_listed_before(wishes, i) {
            return Some(i);
        }
        assert(k < bound@.len() ==> taken[k as int] == all[i as int].address);
        i += 1;
    }
    None
}

} // verus!
