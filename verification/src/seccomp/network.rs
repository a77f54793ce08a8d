//! Which network policy holds for a process.

use std::collections::HashMap;
use std::sync::Arc;
use vstd::prelude::*;

verus! {

broadcast use vstd::std_specs::hash::group_hash_axioms;

/// The address of a host.
#[derive(Clone, Copy, Debug, PartialEq, Eq, Structural)]
pub enum IpAddress {
    V4(u32),
    V6(u128),
}

/// The ports of a host that are allowed.
#[derive(Debug)]
pub enum PortAllow {
    Any,
    Only(Vec<u16>),
}

/// A host with its allowed ports.
#[derive(Debug)]
pub struct AllowedHost {
    pub ip: IpAddress,
    pub ports: PortAllow,
}

/// A range of hosts with its allowed ports.
#[derive(Debug)]
pub struct AllowedRange {
    pub network: IpAddress,
    pub prefix_bits: u8,
    pub ports: PortAllow,
}

/// Which destinations are allowed.
#[derive(Debug)]
pub enum NetworkPolicy {
    Unrestricted,
    AllowList { per_ip: Vec<AllowedHost>, cidrs: Vec<AllowedRange>, any_ip_ports: Vec<u16> },
}

/// The protocols that are told apart.
#[derive(Clone, Copy, Debug, PartialEq, Eq, Structural)]
pub enum Protocol {
    Tcp,
    Udp,
    Icmp,
}

/// The policy that is decided while a command runs.
#[derive(Debug)]
pub struct LivePolicy {
    pub allowed_ips: Vec<IpAddress>,
}

/// The network policies of a command.
#[derive(Debug)]
pub struct NetworkState {
    pub tcp_policy: Arc<NetworkPolicy>,
    pub udp_policy: Arc<NetworkPolicy>,
    pub icmp_policy: Arc<NetworkPolicy>,
    /// The ports that cannot be bound.
    pub bind_deny_ports: Vec<u16>,
    /// The hosts that a process is restricted to, by its number.
    pub pid_ip_overrides: HashMap<u32, Vec<IpAddress>>,
    /// The ports that go through the proxy.
    pub http_acl_ports: Vec<u16>,
}

/// Whether a policy allows some hosts on any port, and nothing else.
pub open spec fn allows_only(policy: NetworkPolicy, ips: Seq<IpAddress>) -> bool {
    match policy {
        NetworkPolicy::Unrestricted => false,
        NetworkPolicy::AllowList { per_ip, cidrs, any_ip_ports } => {
            &&& per_ip@.len() == ips.len()
            &&& forall|i: int|
                0 <= i < ips.len() ==> (#[trigger] per_ip@[i]).ip == ips[i] && per_ip@[i].ports is Any
            &&& cidrs@.len() == 0
            &&& any_ip_ports@.len() == 0
        },
    }
}

/// The hosts that a process is restricted to: by its own override, or by a live
/// policy that names any.
pub open spec fn restriction(
    overrides: Map<u32, Vec<IpAddress>>,
    pid: u32,
    live: Option<LivePolicy>,
) -> Option<Seq<IpAddress>> {
    if overrides.dom().contains(pid) {
        Some(overrides[pid]@)
    } else {
        match live {
            Some(policy) => if policy.allowed_ips@.len() > 0 {
                Some(policy.allowed_ips@)
            } else {
                None
            },
            None => None,
        }
    }
}

/// The policy of a protocol.
pub open spec fn policy_of(state: NetworkState, protocol: Protocol) -> NetworkPolicy {
    match protocol {
        Protocol::Tcp => *state.tcp_policy,
        Protocol::Udp => *state.udp_policy,
        Protocol::Icmp => *state.icmp_policy,
    }
}

fn allow_only(ips: &Vec<IpAddress>) -> (policy: Arc<NetworkPolicy>)
    ensures
        allows_only(*policy, ips@),
{
    let mut per_ip: Vec<AllowedHost> = Vec::new();
    let mut i: usize = 0;
    while i < ips.len()
        invariant
            i <= ips@.len(),
            per_ip@.len() == i,
            forall|j: int| 0 <= j < i ==> (#[trigger] per_ip@[j]).ip == ips@[j] && per_ip@[j].ports is Any,
        decreases ips@.len() - i,
    {
        per_ip.push(AllowedHost { ip: ips[i], ports: PortAllow::Any });
        i = i + 1;
    }
    Arc::new(NetworkPolicy::AllowList { per_ip, cidrs: Vec::new(), any_ip_ports: Vec::new() })
}

impl NetworkState {
    /// Nothing is restricted.
    pub fn new() -> (state: NetworkState)
        ensures
            forall|protocol: Protocol| #[trigger] policy_of(state, protocol) == NetworkPolicy::Unrestricted,
            state.bind_deny_ports@.len() == 0,
            state.pid_ip_overrides@ == Map::<u32, Vec<IpAddress>>::empty(),
            state.http_acl_ports@.len() == 0,
    {
        NetworkState {
            tcp_policy: Arc::new(NetworkPolicy::Unrestricted),
            udp_policy: Arc::new(NetworkPolicy::Unrestricted),
            icmp_policy: Arc::new(NetworkPolicy::Unrestricted),
            bind_deny_ports: Vec::new(),
            pid_ip_overrides: HashMap::new(),
            http_acl_ports: Vec::new(),
        }
    }

    /// The policy that holds for a process and a protocol: an override of the
    /// process, then a live policy, then that of the protocol. The first two
    /// allow hosts on any port, for every protocol.
    pub fn effective_network_policy(&self, pid: u32, protocol: Protocol, live: &Option<LivePolicy>) -> (policy: Arc<
        NetworkPolicy,
    >)
        ensures
            match restriction(self.pid_ip_overrides@, pid, *live) {
                Some(ips) => allows_only(*policy, ips),
                None => *policy == policy_of(*self, protocol),
            },
    {
        match self.pid_ip_overrides.get(&pid) {
            Some(ips) => {
                return allow_only(ips);
            },
            None => {},
        }
        match live {
            Some(known) => {
                if known.allowed_ips.len() > 0 {
                    return allow_only(&known.allowed_ips);
                }
            },
            None => {},
        }
        match protocol {
            Protocol::Tcp => Arc::clone(&self.tcp_policy),
            Protocol::Udp => Arc::clone(&self.udp_policy),
            Protocol::Icmp => Arc::clone(&self.icmp_policy),
        }
    }
}

/// An override of a process holds whatever the live policy says and whatever the
/// protocol allows.
pub proof fn law_overrides_come_first(overrides: Map<u32, Vec<IpAddress>>, pid: u32, live: Option<LivePolicy>)
    requires
        overrides.dom().contains(pid),
    ensures
        restriction(overrides, pid, live) == Some(overrides[pid]@),
{
}

/// A process is held to the hosts of its own override, where it has one, even an empty one;
/// otherwise to those of the live policy, where it names some; and otherwise to the policy
/// of the protocol.
pub proof fn law_restrictions_come_of_override_or_policy(
    overrides: Map<u32, Vec<IpAddress>>,
    pid: u32,
    live: Option<LivePolicy>,
)
    ensures
        restriction(overrides, pid, live) is None <==> !overrides.dom().contains(pid) && (live matches Some(policy)
            ==> policy.allowed_ips@.len() == 0),
        !overrides.dom().contains(pid) ==> (restriction(overrides, pid, live) matches Some(ips) ==> live matches Some(
            policy,
        ) && ips == policy.allowed_ips@),
        restriction(overrides.remove(pid), pid, None) is None,
{
}

/// Each protocol has a policy of its own.
pub proof fn law_protocols_have_their_policy(state: NetworkState)
    ensures
        policy_of(state, Protocol::Tcp) == *state.tcp_policy,
        policy_of(state, Protocol::Udp) == *state.udp_policy,
        policy_of(state, Protocol::Icmp) == *state.icmp_policy,
{
}

/// A policy that allows only some hosts lists each of them with every port, and allows
/// nothing else.
pub proof fn law_restricted_policies_list_their_hosts(policy: NetworkPolicy, ips: Seq<IpAddress>)
    requires
        allows_only(policy, ips),
    ensures
        policy matches NetworkPolicy::AllowList { per_ip, cidrs, any_ip_ports } && per_ip@.len() == ips.len()
            && cidrs@.len() == 0 && any_ip_ports@.len() == 0 && (forall|i: int|
            0 <= i < ips.len() ==> (#[trigger] per_ip@[i]).ip == ips[i] && per_ip@[i].ports is Any),
{
}

} // verus!
