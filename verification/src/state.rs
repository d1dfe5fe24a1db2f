//! The shared runtime state: the upstream list, the host table, and the
//! per-attempt timeout. The reload path replaces it as a group; the request
//! path reads a consistent snapshot.

use vstd::prelude::*;
use crate::config::{Hosts, SpecHosts};
use crate::ip::{IpAddress, IpV4, SocketAddress};

verus! {

/// The state a request is answered against.
#[derive(Debug)]
pub struct SharedState {
    pub proxy: Vec<SocketAddress>,
    pub hosts: Hosts,
    pub timeout: u64,
}

/// The state at the spec level.
pub struct SpecState {
    pub proxy: Seq<SocketAddress>,
    pub hosts: SpecHosts,
    pub timeout: u64,
}

impl View for SharedState {
    type V = SpecState;

    open spec fn view(&self) -> SpecState {
        SpecState { proxy: self.proxy@, hosts: self.hosts@, timeout: self.timeout }
    }
}

/// The default upstream resolvers.
pub open spec fn default_proxy() -> Seq<SocketAddress> {
    seq![
        (SocketAddress {
            ip: IpAddress::V4(IpV4 { o0: 8, o1: 8, o2: 8, o3: 8 }),
            port: 53,
        }),
        (SocketAddress {
            ip: IpAddress::V4(IpV4 { o0: 1, o1: 1, o2: 1, o3: 1 }),
            port: 53,
        }),
    ]
}

/// The default per-attempt timeout, in milliseconds.
pub open spec fn default_timeout() -> u64 {
    2000
}

/// The state a reload installs: the parsed upstreams or the defaults when
/// none were configured, the parsed host table, and the parsed timeout or
/// its default.
pub open spec fn spec_update(
    proxy: Seq<SocketAddress>,
    hosts: SpecHosts,
    timeout: Option<u64>,
) -> SpecState {
    SpecState {
        proxy: if proxy.len() == 0 {
            default_proxy()
        } else {
            proxy
        },
        hosts,
        timeout: match timeout {
            Some(ms) => ms,
            None => default_timeout(),
        },
    }
}

impl SharedState {
    /// The state before the first configuration is installed.
    pub fn new() -> (r: SharedState)
        ensures
            r@.proxy == Seq::<SocketAddress>::empty(),
            r@.hosts == Seq::<(crate::matcher::SpecMatcher, IpAddress)>::empty(),
            r@.timeout == default_timeout(),
    {
        SharedState { proxy: Vec::new(), hosts: Hosts::new(), timeout: 2000 }
    }

    /// Install a freshly parsed configuration as a group, falling back to
    /// the default upstreams and timeout where none were configured.
    pub fn update_config(&mut self, proxy: Vec<SocketAddress>, hosts: Hosts, timeout: Option<u64>)
        ensures
            final(self)@ == spec_update(proxy@, hosts@, timeout),
    {
        if proxy.len() == 0 {
            let mut defaults: Vec<SocketAddress> = Vec::new();
            defaults.push(
                SocketAddress { ip: IpAddress::V4(IpV4 { o0: 8, o1: 8, o2: 8, o3: 8 }), port: 53 },
            );
            defaults.push(
                SocketAddress { ip: IpAddress::V4(IpV4 { o0: 1, o1: 1, o2: 1, o3: 1 }), port: 53 },
            );
            proof {
                assert(defaults@ =~= default_proxy());
            }
            self.proxy = defaults;
        } else {
            self.proxy = proxy;
        }
        self.hosts = hosts;
        self.timeout = match timeout {
            Some(ms) => ms,
            None => 2000,
        };
    }
}

/// Reload visibility: once a configuration is installed, a lookup against
/// the state's host table is a lookup against that configuration's host
/// table — the replaced table plays no part.
pub proof fn lemma_reload_atomicity(
    proxy: Seq<SocketAddress>,
    hosts: SpecHosts,
    timeout: Option<u64>,
    domain: Seq<char>,
    qtype: crate::packet::QueryType,
)
    ensures
        crate::resolver::spec_answer(spec_update(proxy, hosts, timeout).hosts, domain, qtype)
            == crate::resolver::spec_answer(hosts, domain, qtype),
{
}

} // verus!
