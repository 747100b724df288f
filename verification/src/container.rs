//! Container records and the hostname resolver.
//!
//! A [`ContainerInfo`] is the in-memory record of one container: its
//! identifier, name, optional global address, named network attachments and
//! domain tokens. [`ContainerInfo::get_hostnames`] derives from it the ordered
//! address/hostname groupings that end up as lines of the managed hosts-file
//! section.

use vstd::prelude::*;

use crate::strutil::{
    find_char, first_index_of, spec_ends_with, str_ends_with, str_eq, strings_view,
};

verus! {

/// One network attachment: the container's address on that network and its
/// aliases there (deduplicated, the container's own name always among them
/// exactly once).
#[derive(Debug, Clone)]
pub struct NetworkInfo {
    pub ip_address: String,
    pub aliases: Vec<String>,
}

/// The record of one container, as kept in the state store.
///
/// `networks` is an association list keyed by network name; keys are unique
/// and insertion order is kept.
#[derive(Debug, Clone)]
pub struct ContainerInfo {
    pub id: String,
    pub name: String,
    pub ip_address: Option<String>,
    pub networks: Vec<(String, NetworkInfo)>,
    pub domain_names: Vec<String>,
    pub running: bool,
}

/// No string occurs twice in the list.
pub open spec fn distinct_seq(items: Seq<Seq<char>>) -> bool {
    forall|x: int, y: int| 0 <= x < y < items.len() ==> items[x] != items[y]
}

/// A well-formed alias list: free of repetitions and holding `cname` — so
/// holding it exactly once.
pub open spec fn alias_list_wf(al: Seq<Seq<char>>, cname: Seq<char>) -> bool {
    al.contains(cname) && distinct_seq(al)
}

/// The attachment list is a map: network names are pairwise distinct, in
/// insertion order.
pub open spec fn networks_unique(c: ContainerInfo) -> bool {
    forall|i: int, j: int|
        0 <= i < j < c.networks@.len() ==> (#[trigger] c.networks@[i]).0@
            != (#[trigger] c.networks@[j]).0@
}

/// Every attachment's aliases are deduplicated and carry the container's own
/// name exactly once.
pub open spec fn aliases_wf(c: ContainerInfo) -> bool {
    forall|k: int|
        0 <= k < c.networks@.len() ==> alias_list_wf(
            strings_view((#[trigger] c.networks@[k]).1.aliases@),
            c.name@,
        )
}

/// The eligibility predicate: running and exposing at least one resolvable
/// network surface.
pub open spec fn is_active(c: ContainerInfo) -> bool {
    c.running && (c.ip_address is Some || c.networks@.len() > 0)
}

/// `name` qualified by `network`: `name.network`.
pub open spec fn suffixed(name: Seq<char>, network: Seq<char>) -> Seq<char> {
    name + seq!['.'] + network
}

/// A domain token of the form `net:hostname` applies to a network when the
/// network's name equals `net`, or ends with `_net` or `-net` (so a generic
/// token matches a compose-style network such as `project_default` without
/// matching an unrelated `mydefault`).
pub open spec fn spec_network_matches(network: Seq<char>, net: Seq<char>) -> bool {
    network == net || spec_ends_with(network, seq!['_'] + net) || spec_ends_with(
        network,
        seq!['-'] + net,
    )
}

/// Whether a domain token has the `net:hostname` form.
pub open spec fn token_has_colon(token: Seq<char>) -> bool {
    first_index_of(token, ':') >= 0
}

/// The `net` part of a `net:hostname` token.
pub open spec fn token_net(token: Seq<char>) -> Seq<char> {
    token.take(first_index_of(token, ':'))
}

/// The `hostname` part of a `net:hostname` token.
pub open spec fn token_host(token: Seq<char>) -> Seq<char> {
    token.skip(first_index_of(token, ':') + 1)
}

/// What one domain token contributes to one network's hostname set: a
/// `net:hostname` token contributes its hostname when the network matches;
/// a bare token contributes itself to every network, but only when the record
/// has no global address to receive it instead.
pub open spec fn token_contrib(token: Seq<char>, network: Seq<char>, has_global: bool) -> Seq<
    Seq<char>,
> {
    if token_has_colon(token) {
        if spec_network_matches(network, token_net(token)) {
            seq![token_host(token)]
        } else {
            Seq::empty()
        }
    } else if !has_global {
        seq![token]
    } else {
        Seq::empty()
    }
}

/// Contributions of the tokens from index `i` on, in order.
pub open spec fn token_hosts_from(
    tokens: Seq<Seq<char>>,
    i: int,
    network: Seq<char>,
    has_global: bool,
) -> Seq<Seq<char>>
    decreases tokens.len() - i,
{
    if i < 0 || i >= tokens.len() {
        Seq::empty()
    } else {
        token_contrib(tokens[i], network, has_global) + token_hosts_from(
            tokens,
            i + 1,
            network,
            has_global,
        )
    }
}

/// The hostname set of the `j`-th network attachment: the container's name
/// and every alias, each qualified by the network name, then the applicable
/// domain tokens.
pub open spec fn network_group_hosts(c: ContainerInfo, j: int) -> Seq<Seq<char>> {
    let network = c.networks@[j].0@;
    seq![suffixed(c.name@, network)] + c.networks@[j].1.aliases@.map_values(
        |a: String| suffixed(a@, network),
    ) + token_hosts_from(strings_view(c.domain_names@), 0, network, c.ip_address is Some)
}

/// The per-network groupings from attachment `j` on, in order.
pub open spec fn network_groups_from(c: ContainerInfo, j: int) -> Seq<(Seq<char>, Seq<Seq<char>>)>
    decreases c.networks@.len() - j,
{
    if j < 0 || j >= c.networks@.len() {
        Seq::empty()
    } else {
        seq![(c.networks@[j].1.ip_address@, network_group_hosts(c, j))] + network_groups_from(
            c,
            j + 1,
        )
    }
}

/// The grouping for the global address, when one is set: the name with the
/// TLD appended, then every domain token verbatim.
pub open spec fn global_groups(c: ContainerInfo, tld: Seq<char>) -> Seq<(Seq<char>, Seq<Seq<char>>)> {
    match c.ip_address {
        Some(ip) => seq![(ip@, seq![c.name@ + tld] + strings_view(c.domain_names@))],
        None => Seq::empty(),
    }
}

/// All address/hostname groupings of a record: the global one first, then one
/// per network attachment in order.
pub open spec fn spec_hostnames(c: ContainerInfo, tld: Seq<char>) -> Seq<(Seq<char>, Seq<Seq<char>>)> {
    global_groups(c, tld) + network_groups_from(c, 0)
}

/// The contributions from token `i` on include a matching token's hostname.
proof fn lemma_token_hosts_member(
    tokens: Seq<Seq<char>>,
    i: int,
    t: int,
    network: Seq<char>,
    has_global: bool,
)
    requires
        0 <= i <= t < tokens.len(),
        token_has_colon(tokens[t]),
        spec_network_matches(network, token_net(tokens[t])),
    ensures
        token_hosts_from(tokens, i, network, has_global).contains(token_host(tokens[t])),
    decreases t - i,
{
    let host = token_host(tokens[t]);
    if i == t {
        assert(token_contrib(tokens[t], network, has_global) == seq![host]);
        assert(token_hosts_from(tokens, i, network, has_global)[0] == host);
    } else {
        lemma_token_hosts_member(tokens, i + 1, t, network, has_global);
        let head = token_contrib(tokens[i], network, has_global);
        let tail = token_hosts_from(tokens, i + 1, network, has_global);
        let w = choose|w: int| 0 <= w < tail.len() && tail[w] == host;
        assert(token_hosts_from(tokens, i, network, has_global)[head.len() + w] == host);
    }
}

/// The groupings from attachment `i` on: their number, and the entry that the
/// `j`-th attachment contributes.
proof fn lemma_network_groups_index(c: ContainerInfo, i: int, j: int)
    requires
        0 <= i <= j < c.networks@.len(),
    ensures
        network_groups_from(c, i).len() >= j - i + 1,
        network_groups_from(c, i)[j - i] == (
            c.networks@[j].1.ip_address@,
            network_group_hosts(c, j),
        ),
    decreases j - i,
{
    if i < j {
        lemma_network_groups_index(c, i + 1, j);
    }
}

/// Network-suffix matching (law), the direction that holds of all inputs: a
/// domain token of the form `net:hostname` contributes its hostname to the
/// grouping of every network whose name matches `net` — equal to it, or
/// ending in `_net` or `-net`. (The converse — that the hostname appears in a
/// grouping only when the network matches — does not hold of all inputs: a
/// hostname that happens to equal the container's qualified name, a qualified
/// alias or a bare token appears regardless.)
pub proof fn lemma_matching_token_emitted(c: ContainerInfo, tld: Seq<char>, j: int, t: int)
    requires
        0 <= j < c.networks@.len(),
        0 <= t < c.domain_names@.len(),
        token_has_colon(c.domain_names@[t]@),
        spec_network_matches(c.networks@[j].0@, token_net(c.domain_names@[t]@)),
    ensures
        ({
            let g = (if c.ip_address is Some {
                1int
            } else {
                0int
            }) + j;
            &&& 0 <= g < spec_hostnames(c, tld).len()
            &&& spec_hostnames(c, tld)[g].0 == c.networks@[j].1.ip_address@
            &&& spec_hostnames(c, tld)[g].1.contains(token_host(c.domain_names@[t]@))
        }),
{
    let tokens = strings_view(c.domain_names@);
    let network = c.networks@[j].0@;
    let host = token_host(c.domain_names@[t]@);
    assert(tokens[t] == c.domain_names@[t]@);
    lemma_token_hosts_member(tokens, 0, t, network, c.ip_address is Some);
    let part = token_hosts_from(tokens, 0, network, c.ip_address is Some);
    let w = choose|w: int| 0 <= w < part.len() && part[w] == host;
    let base_len = 1 + c.networks@[j].1.aliases@.len();
    assert(network_group_hosts(c, j)[base_len + w] == host);
    assert(network_group_hosts(c, j).contains(host));
    lemma_network_groups_index(c, 0, j);
    assert(network_groups_from(c, 0)[j] == (
        c.networks@[j].1.ip_address@,
        network_group_hosts(c, j),
    ));
    let g = (if c.ip_address is Some {
        1int
    } else {
        0int
    }) + j;
    assert(global_groups(c, tld).len() == g - j);
    assert(spec_hostnames(c, tld)[g] == network_groups_from(c, 0)[j]);
}

/// View of the executable grouping list.
pub open spec fn groups_view(v: Seq<(String, Vec<String>)>) -> Seq<(Seq<char>, Seq<Seq<char>>)> {
    v.map_values(|p: (String, Vec<String>)| (p.0@, strings_view(p.1@)))
}

/// `name.network`.
fn dot_suffixed(name: &str, network: &str) -> (r: String)
    ensures
        r@ == suffixed(name@, network@),
{
    let mut r = String::from_str(name);
    r.append(".");
    r.append(network);
    proof {
        reveal_strlit(".");
        assert(r@ =~= suffixed(name@, network@));
    }
    r
}

/// Decides [`spec_network_matches`].
pub fn network_matches(network: &str, net: &str) -> (r: bool)
    ensures
        r == spec_network_matches(network@, net@),
{
    if str_eq(network, net) {
        return true;
    }
    let mut u = String::from_str("_");
    u.append(net);
    proof {
        reveal_strlit("_");
        assert(u@ =~= seq!['_'] + net@);
    }
    if str_ends_with(network, u.as_str()) {
        return true;
    }
    let mut h = String::from_str("-");
    h.append(net);
    proof {
        reveal_strlit("-");
        assert(h@ =~= seq!['-'] + net@);
    }
    str_ends_with(network, h.as_str())
}

/// Splits a `net:hostname` token at its first colon; `None` for a bare token.
pub fn split_token<'a>(token: &'a str) -> (r: Option<(&'a str, &'a str)>)
    ensures
        match r {
            Some(p) => token_has_colon(token@) && p.0@ == token_net(token@) && p.1@ == token_host(
                token@,
            ),
            None => !token_has_colon(token@),
        },
{
    let len = token.unicode_len();
    match find_char(token, ':') {
        Some(i) => {
            proof {
                crate::strutil::lemma_first_index_props(token@, ':');
            }
            let net = token.substring_char(0, i);
            let host = token.substring_char(i + 1, len);
            proof {
                assert(net@ =~= token_net(token@));
                assert(host@ =~= token_host(token@));
            }
            Some((net, host))
        },
        None => None,
    }
}

impl ContainerInfo {
    /// Whether this record passes the eligibility predicate: it is running
    /// and exposes a global address or at least one network attachment.
    pub fn has_exposed_ports(&self) -> (r: bool)
        ensures
            r == is_active(*self),
    {
        self.running && (self.ip_address.is_some() || !self.networks.is_empty())
    }

    /// Derives the ordered address/hostname groupings for this record: one
    /// group for the global address (name plus TLD, then every domain token
    /// verbatim), then one group per network attachment (name and aliases
    /// qualified by the network name, then the domain tokens that apply to
    /// that network).
    pub fn get_hostnames(&self, tld: &str) -> (result: Vec<(String, Vec<String>)>)
        ensures
            groups_view(result@) == spec_hostnames(*self, tld@),
    {
        let mut result: Vec<(String, Vec<String>)> = Vec::new();
        let has_global = self.ip_address.is_some();

        if let Some(ip) = &self.ip_address {
            let mut hosts: Vec<String> = Vec::new();
            let mut with_tld = String::from_str(self.name.as_str());
            with_tld.append(tld);
            hosts.push(with_tld);
            let mut k: usize = 0;
            while k < self.domain_names.len()
                invariant
                    k <= self.domain_names@.len(),
                    strings_view(hosts@) =~= seq![self.name@ + tld@] + strings_view(
                        self.domain_names@.take(k as int),
                    ),
                decreases self.domain_names@.len() - k,
            {
                let ghost pre = hosts@;
                hosts.push(self.domain_names[k].clone());
                proof {
                    assert(strings_view(hosts@) =~= strings_view(pre).push(
                        self.domain_names@[k as int]@,
                    ));
                    assert(self.domain_names@.take(k + 1) =~= self.domain_names@.take(
                        k as int,
                    ).push(self.domain_names@[k as int]));
                    assert(strings_view(self.domain_names@.take(k + 1)) =~= strings_view(
                        self.domain_names@.take(k as int),
                    ).push(self.domain_names@[k as int]@));
                    assert(strings_view(hosts@) =~= seq![self.name@ + tld@] + strings_view(
                        self.domain_names@.take(k + 1),
                    ));
                }
                k = k + 1;
            }
            proof {
                assert(self.domain_names@.take(self.domain_names@.len() as int)
                    =~= self.domain_names@);
            }
            result.push((ip.clone(), hosts));
        }
        proof {
            assert(groups_view(result@) =~~= global_groups(*self, tld@));
        }

        let mut j: usize = 0;
        while j < self.networks.len()
            invariant
                j <= self.networks@.len(),
                groups_view(result@) + network_groups_from(*self, j as int) =~~= spec_hostnames(
                    *self,
                    tld@,
                ),
                has_global == self.ip_address is Some,
            decreases self.networks@.len() - j,
        {
            let network_name = &self.networks[j].0;
            let ghost netview = network_name@;
            let mut hosts: Vec<String> = Vec::new();
            hosts.push(dot_suffixed(self.name.as_str(), network_name.as_str()));

            let alias_count = self.networks[j].1.aliases.len();
            let mut a: usize = 0;
            while a < alias_count
                invariant
                    a <= alias_count,
                    alias_count == self.networks@[j as int].1.aliases@.len(),
                    j < self.networks@.len(),
                    netview == self.networks@[j as int].0@,
                    network_name@ == netview,
                    strings_view(hosts@) =~= seq![suffixed(self.name@, netview)]
                        + self.networks@[j as int].1.aliases@.take(a as int).map_values(
                        |x: String| suffixed(x@, netview),
                    ),
                decreases alias_count - a,
            {
                let alias = &self.networks[j].1.aliases[a];
                let pushed = dot_suffixed(alias.as_str(), network_name.as_str());
                let ghost pv = pushed@;
                let ghost pre = hosts@;
                hosts.push(pushed);
                proof {
                    let al = self.networks@[j as int].1.aliases@;
                    assert(pv == suffixed(al[a as int]@, netview));
                    assert(strings_view(hosts@) =~= strings_view(pre).push(pv));
                    assert(al.take(a + 1) =~= al.take(a as int).push(al[a as int]));
                    assert(al.take(a + 1).map_values(|x: String| suffixed(x@, netview)) =~= al.take(
                        a as int,
                    ).map_values(|x: String| suffixed(x@, netview)).push(pv));
                    assert(strings_view(hosts@) =~= seq![suffixed(self.name@, netview)]
                        + al.take(a + 1).map_values(|x: String| suffixed(x@, netview)));
                }
                a = a + 1;
            }
            proof {
                let al = self.networks@[j as int].1.aliases@;
                assert(al.take(al.len() as int) =~= al);
            }

            let ghost base = seq![suffixed(self.name@, netview)] + self.networks@[j as int].1.aliases@.map_values(
                |x: String| suffixed(x@, netview),
            );
            let ghost tokviews = strings_view(self.domain_names@);
            let mut t: usize = 0;
            while t < self.domain_names.len()
                invariant
                    t <= self.domain_names@.len(),
                    j < self.networks@.len(),
                    netview == self.networks@[j as int].0@,
                    network_name@ == netview,
                    tokviews == strings_view(self.domain_names@),
                    has_global == self.ip_address is Some,
                    strings_view(hosts@) + token_hosts_from(tokviews, t as int, netview, has_global)
                        =~= base + token_hosts_from(tokviews, 0, netview, has_global),
                decreases self.domain_names@.len() - t,
            {
                let token = &self.domain_names[t];
                let ghost pre = hosts@;
                let ghost tok_step = token_contrib(tokviews[t as int], netview, has_global);
                proof {
                    assert(tokviews[t as int] == self.domain_names@[t as int]@);
                }
                match split_token(token.as_str()) {
                    Some((net, hostname)) => {
                        if network_matches(network_name.as_str(), net) {
                            let pushed = String::from_str(hostname);
                            let ghost pv = pushed@;
                            hosts.push(pushed);
                            proof {
                                assert(pv == token_host(tokviews[t as int]));
                                assert(tok_step =~= seq![pv]);
                                assert(strings_view(hosts@) =~= strings_view(pre).push(pv));
                                assert(strings_view(hosts@) =~= strings_view(pre) + tok_step);
                            }
                        } else {
                            proof {
                                assert(tok_step =~= Seq::<Seq<char>>::empty());
                                assert(strings_view(hosts@) =~= strings_view(pre) + tok_step);
                            }
                        }
                    },
                    None => {
                        if !has_global {
                            let ghost pv = self.domain_names@[t as int]@;
                            hosts.push(token.clone());
                            proof {
                                assert(tok_step =~= seq![pv]);
                                assert(strings_view(hosts@) =~= strings_view(pre).push(pv));
                                assert(strings_view(hosts@) =~= strings_view(pre) + tok_step);
                            }
                        } else {
                            proof {
                                assert(tok_step =~= Seq::<Seq<char>>::empty());
                                assert(strings_view(hosts@) =~= strings_view(pre) + tok_step);
                            }
                        }
                    },
                }
                proof {
                    assert(strings_view(hosts@) =~= strings_view(pre) + tok_step);
                    assert(token_hosts_from(tokviews, t as int, netview, has_global) == tok_step
                        + token_hosts_from(tokviews, t + 1, netview, has_global));
                    assert(strings_view(hosts@) + token_hosts_from(
                        tokviews,
                        t + 1,
                        netview,
                        has_global,
                    ) =~= base + token_hosts_from(tokviews, 0, netview, has_global));
                }
                t = t + 1;
            }
            proof {
                assert(strings_view(hosts@) =~= network_group_hosts(*self, j as int));
            }

            let ip = self.networks[j].1.ip_address.clone();
            result.push((ip, hosts));
            proof {
                assert(network_groups_from(*self, j as int) == seq![
                    (self.networks@[j as int].1.ip_address@, network_group_hosts(*self, j as int)),
                ] + network_groups_from(*self, j + 1));
                assert(groups_view(result@) + network_groups_from(*self, j + 1) =~~= spec_hostnames(
                    *self,
                    tld@,
                ));
            }
            j = j + 1;
        }
        proof {
            assert(groups_view(result@) =~~= spec_hostnames(*self, tld@));
        }
        result
    }
}

} // verus!
