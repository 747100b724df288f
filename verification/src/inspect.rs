//! From raw inspection data to a container record.
//!
//! The runtime's inspection answer is mirrored here as plain optional values:
//! identifier, name, running state, port count, network attachments,
//! environment entries and labels. [`extract_container_info`] turns such an
//! answer into a [`ContainerInfo`], deriving the domain tokens from the
//! `DOMAIN_NAME` environment entries and the `dev.orbstack.domains` label,
//! and making sure the container's own name stands among the aliases of every
//! attachment.

use vstd::prelude::*;

use crate::container::{ContainerInfo, NetworkInfo};
use crate::strutil::{
    find_char, first_index_of, spec_trim, str_eq, strings_view, trim,
};

verus! {

/// The running state of an inspected container.
#[derive(Debug, Clone)]
pub struct InspectState {
    pub running: Option<bool>,
}

/// The configuration of an inspected container: environment entries and
/// labels (an association list in reported order).
#[derive(Debug, Clone)]
pub struct InspectConfig {
    pub env: Option<Vec<String>>,
    pub labels: Option<Vec<(String, String)>>,
}

/// One reported network attachment.
#[derive(Debug, Clone)]
pub struct InspectNetwork {
    pub ip_address: Option<String>,
    pub aliases: Option<Vec<String>>,
}

/// The reported network settings: how many port mappings there are, and the
/// attachments by network name.
#[derive(Debug, Clone)]
pub struct InspectNetworkSettings {
    pub ports: Option<usize>,
    pub networks: Option<Vec<(String, InspectNetwork)>>,
}

/// A whole inspection answer, as plain values.
#[derive(Debug, Clone)]
pub struct InspectData {
    pub id: Option<String>,
    pub name: Option<String>,
    pub state: Option<InspectState>,
    pub config: Option<InspectConfig>,
    pub network_settings: Option<InspectNetworkSettings>,
}

/// The environment prefix that carries domain tokens.
pub open spec fn spec_domain_prefix() -> Seq<char> {
    "DOMAIN_NAME="@
}

/// The label key that carries domain tokens.
pub open spec fn spec_domains_label() -> Seq<char> {
    "dev.orbstack.domains"@
}

/// `s` with every leading slash removed.
pub open spec fn spec_strip_slashes(s: Seq<char>) -> Seq<char>
    decreases s.len(),
{
    if s.len() > 0 && s[0] == '/' {
        spec_strip_slashes(s.drop_first())
    } else {
        s
    }
}

/// `p` is a prefix of `s`.
pub open spec fn spec_has_prefix(s: Seq<char>, p: Seq<char>) -> bool {
    p.len() <= s.len() && s.take(p.len() as int) == p
}

/// The comma-separated segments of `s`, kept verbatim.
pub open spec fn spec_split_commas(s: Seq<char>) -> Seq<Seq<char>>
    decreases s.len(),
{
    let k = first_index_of(s, ',');
    if k < 0 || k >= s.len() {
        seq![s]
    } else {
        seq![s.take(k)] + spec_split_commas(s.skip(k + 1))
    }
}

/// The segments from `i` on, trimmed, empty ones dropped.
pub open spec fn spec_clean_from(parts: Seq<Seq<char>>, i: int) -> Seq<Seq<char>>
    decreases parts.len() - i,
{
    if i < 0 || i >= parts.len() {
        Seq::empty()
    } else {
        (if spec_trim(parts[i]).len() > 0 {
            seq![spec_trim(parts[i])]
        } else {
            Seq::empty()
        }) + spec_clean_from(parts, i + 1)
    }
}

/// The domain tokens carried by one comma-separated value: each segment
/// trimmed, empty segments dropped.
pub open spec fn spec_domain_list(s: Seq<char>) -> Seq<Seq<char>> {
    spec_clean_from(spec_split_commas(s), 0)
}

/// The tokens contributed by the environment entries from `i` on: every
/// entry carrying the domain prefix contributes its value's tokens.
pub open spec fn spec_env_domains_from(env: Seq<Seq<char>>, i: int) -> Seq<Seq<char>>
    decreases env.len() - i,
{
    if i < 0 || i >= env.len() {
        Seq::empty()
    } else {
        (if spec_has_prefix(env[i], spec_domain_prefix()) {
            spec_domain_list(env[i].skip(spec_domain_prefix().len() as int))
        } else {
            Seq::empty()
        }) + spec_env_domains_from(env, i + 1)
    }
}

/// View of an association list of owned strings.
pub open spec fn pairs_view(v: Seq<(String, String)>) -> Seq<(Seq<char>, Seq<char>)> {
    v.map_values(|p: (String, String)| (p.0@, p.1@))
}

/// The value of the first pair bearing `key`, if any.
pub open spec fn spec_lookup(pairs: Seq<(Seq<char>, Seq<char>)>, key: Seq<char>) -> Option<
    Seq<char>,
>
    decreases pairs.len(),
{
    if pairs.len() == 0 {
        None
    } else if pairs[0].0 == key {
        Some(pairs[0].1)
    } else {
        spec_lookup(pairs.drop_first(), key)
    }
}

/// All domain tokens of an inspection answer: those of every `DOMAIN_NAME`
/// environment entry, then those of the `dev.orbstack.domains` label.
pub open spec fn spec_domains(config: Option<InspectConfig>) -> Seq<Seq<char>> {
    match config {
        Some(cfg) => {
            let env = match cfg.env {
                Some(e) => strings_view(e@),
                None => Seq::empty(),
            };
            let labels = match cfg.labels {
                Some(l) => pairs_view(l@),
                None => Seq::empty(),
            };
            spec_env_domains_from(env, 0) + (match spec_lookup(labels, spec_domains_label()) {
                Some(v) => spec_domain_list(v),
                None => Seq::empty(),
            })
        },
        None => Seq::empty(),
    }
}

/// The reported aliases from `i` on, folded onto `acc`: an alias already in
/// `acc` is dropped, so first occurrences survive in order.
pub open spec fn spec_dedup_from(acc: Seq<Seq<char>>, items: Seq<Seq<char>>, i: int) -> Seq<
    Seq<char>,
>
    decreases items.len() - i,
{
    if i < 0 || i >= items.len() {
        acc
    } else if acc.contains(items[i]) {
        spec_dedup_from(acc, items, i + 1)
    } else {
        spec_dedup_from(acc.push(items[i]), items, i + 1)
    }
}

/// `items` with every repetition removed, first occurrences kept in order.
pub open spec fn spec_dedup(items: Seq<Seq<char>>) -> Seq<Seq<char>> {
    spec_dedup_from(Seq::empty(), items, 0)
}

/// The aliases of one attachment: the reported ones deduplicated, with the
/// container's name appended when it is not already among them — so the name
/// stands exactly once, however often the runtime repeated it.
pub open spec fn spec_aliases(reported: Seq<Seq<char>>, cname: Seq<char>) -> Seq<Seq<char>> {
    let kept = spec_dedup(reported);
    if kept.contains(cname) {
        kept
    } else {
        kept.push(cname)
    }
}

/// Folding onto a duplicate-free accumulator keeps it duplicate-free, and
/// never loses an accumulated element.
proof fn lemma_dedup_from_distinct(acc: Seq<Seq<char>>, items: Seq<Seq<char>>, i: int)
    requires
        forall|a: int, b: int| 0 <= a < b < acc.len() ==> acc[a] != acc[b],
    ensures
        forall|a: int, b: int|
            0 <= a < b < spec_dedup_from(acc, items, i).len() ==> spec_dedup_from(acc, items, i)[a]
                != spec_dedup_from(acc, items, i)[b],
        forall|x: Seq<char>|
            acc.contains(x) ==> #[trigger] spec_dedup_from(acc, items, i).contains(x),
    decreases items.len() - i,
{
    if !(0 <= i < items.len()) {
        assert(spec_dedup_from(acc, items, i) == acc);
    } else {
        if acc.contains(items[i]) {
            lemma_dedup_from_distinct(acc, items, i + 1);
            assert(spec_dedup_from(acc, items, i) == spec_dedup_from(acc, items, i + 1));
        } else {
            let acc2 = acc.push(items[i]);
            assert forall|a: int, b: int| 0 <= a < b < acc2.len() implies acc2[a] != acc2[b] by {
                if b == acc.len() {
                    assert(acc2[a] == acc[a]);
                    if acc2[a] == items[i] {
                        assert(acc.contains(acc[a]));
                    }
                }
            }
            lemma_dedup_from_distinct(acc2, items, i + 1);
            assert(spec_dedup_from(acc, items, i) == spec_dedup_from(acc2, items, i + 1));
            assert forall|x: Seq<char>|
                acc.contains(x) implies #[trigger] spec_dedup_from(acc, items, i).contains(x) by {
                assert(acc2.contains(x)) by {
                    let w = choose|w: int| 0 <= w < acc.len() && acc[w] == x;
                    assert(acc2[w] == x);
                }
                assert(spec_dedup_from(acc2, items, i + 1).contains(x));
            }
        }
    }
}

/// Aliases exactly once (law): whatever the runtime reported, an attachment's
/// alias list is free of repetitions and holds the container's own name — so
/// it holds the name exactly once.
pub proof fn lemma_aliases_exactly_once(reported: Seq<Seq<char>>, cname: Seq<char>)
    ensures
        spec_aliases(reported, cname).contains(cname),
        forall|a: int, b: int|
            0 <= a < b < spec_aliases(reported, cname).len() ==> spec_aliases(reported, cname)[a]
                != spec_aliases(reported, cname)[b],
{
    lemma_dedup_from_distinct(Seq::empty(), reported, 0);
    let kept = spec_dedup(reported);
    let r = spec_aliases(reported, cname);
    if !kept.contains(cname) {
        assert(r[r.len() - 1] == cname);
        assert(r.contains(cname));
        assert forall|a: int, b: int| 0 <= a < b < r.len() implies r[a] != r[b] by {
            if b == kept.len() {
                assert(r[a] == kept[a]);
                if r[a] == cname {
                    assert(kept.contains(kept[a]));
                }
            } else {
                assert(r[a] == kept[a] && r[b] == kept[b]);
            }
        }
    }
}

/// Removes repeated strings, keeping first occurrences in order.
fn dedup_strings(items: &Vec<String>) -> (out: Vec<String>)
    ensures
        strings_view(out@) == spec_dedup(strings_view(items@)),
{
    let ghost iv = strings_view(items@);
    let n = items.len();
    let mut out: Vec<String> = Vec::new();
    proof {
        assert(strings_view(out@) =~= Seq::<Seq<char>>::empty());
    }
    let mut i: usize = 0;
    while i < n
        invariant
            i <= n,
            n == items@.len(),
            iv == strings_view(items@),
            spec_dedup_from(strings_view(out@), iv, i as int) == spec_dedup(iv),
        decreases n - i,
    {
        let ghost pre = strings_view(out@);
        if !crate::strutil::contains_str(&out, items[i].as_str()) {
            out.push(items[i].clone());
            proof {
                assert(strings_view(out@) =~= pre.push(iv[i as int]));
            }
        }
        proof {
            assert(spec_dedup_from(strings_view(out@), iv, i + 1) == spec_dedup(iv));
        }
        i = i + 1;
    }
    proof {
        assert(spec_dedup_from(strings_view(out@), iv, n as int) == strings_view(out@));
    }
    out
}

/// View of an attachment list: (network name, address, aliases) per entry.
pub open spec fn networks_view(v: Seq<(String, NetworkInfo)>) -> Seq<
    (Seq<char>, Seq<char>, Seq<Seq<char>>),
> {
    v.map_values(
        |p: (String, NetworkInfo)| (p.0@, p.1.ip_address@, strings_view(p.1.aliases@)),
    )
}

/// The set holding exactly the given names.
pub open spec fn names_set(names: Seq<Seq<char>>) -> Set<Seq<char>> {
    Set::new(|x: Seq<char>| names.contains(x))
}

/// The attachments kept from the reported ones, from `i` on: the first
/// attachment reported under each network name is the one considered (the
/// report stands for a map, so names cannot legitimately repeat), and it is
/// kept when its address is non-empty, with the container's name among the
/// deduplicated aliases.
pub open spec fn spec_networks_from(
    nets: Seq<(String, InspectNetwork)>,
    cname: Seq<char>,
    i: int,
    seen: Set<Seq<char>>,
) -> Seq<(Seq<char>, Seq<char>, Seq<Seq<char>>)>
    decreases nets.len() - i,
{
    if i < 0 || i >= nets.len() {
        Seq::empty()
    } else if seen.contains(nets[i].0@) {
        spec_networks_from(nets, cname, i + 1, seen)
    } else {
        (match nets[i].1.ip_address {
            Some(ip) => if ip@.len() > 0 {
                seq![
                    (
                        nets[i].0@,
                        ip@,
                        spec_aliases(
                            match nets[i].1.aliases {
                                Some(a) => strings_view(a@),
                                None => Seq::empty(),
                            },
                            cname,
                        ),
                    ),
                ]
            } else {
                Seq::empty()
            },
            None => Seq::empty(),
        }) + spec_networks_from(nets, cname, i + 1, seen.insert(nets[i].0@))
    }
}

/// The attachments of an inspection answer.
pub open spec fn spec_networks(ns: InspectNetworkSettings, cname: Seq<char>) -> Seq<
    (Seq<char>, Seq<char>, Seq<Seq<char>>),
> {
    match ns.networks {
        Some(nets) => spec_networks_from(nets@, cname, 0, Set::empty()),
        None => Seq::empty(),
    }
}

/// Network names unique, aliases well formed (law): the kept attachments
/// bear pairwise distinct network names, none already seen, and each carries
/// a deduplicated alias list holding the container's name exactly once.
pub proof fn lemma_networks_from_wf(
    nets: Seq<(String, InspectNetwork)>,
    cname: Seq<char>,
    i: int,
    seen: Set<Seq<char>>,
)
    ensures
        forall|a: int, b: int|
            0 <= a < b < spec_networks_from(nets, cname, i, seen).len()
                ==> spec_networks_from(nets, cname, i, seen)[a].0 != spec_networks_from(
                nets,
                cname,
                i,
                seen,
            )[b].0,
        forall|a: int|
            0 <= a < spec_networks_from(nets, cname, i, seen).len() ==> !seen.contains(
                spec_networks_from(nets, cname, i, seen)[a].0,
            ),
        forall|a: int|
            0 <= a < spec_networks_from(nets, cname, i, seen).len()
                ==> crate::container::alias_list_wf(
                spec_networks_from(nets, cname, i, seen)[a].2,
                cname,
            ),
    decreases nets.len() - i,
{
    let r = spec_networks_from(nets, cname, i, seen);
    if i < 0 || i >= nets.len() {
        assert(r == Seq::<(Seq<char>, Seq<char>, Seq<Seq<char>>)>::empty());
    } else if seen.contains(nets[i].0@) {
        lemma_networks_from_wf(nets, cname, i + 1, seen);
        assert(r == spec_networks_from(nets, cname, i + 1, seen));
    } else {
        let nm = nets[i].0@;
        let seen2 = seen.insert(nm);
        let tail = spec_networks_from(nets, cname, i + 1, seen2);
        lemma_networks_from_wf(nets, cname, i + 1, seen2);
        let head = (match nets[i].1.ip_address {
            Some(ip) => if ip@.len() > 0 {
                seq![
                    (
                        nm,
                        ip@,
                        spec_aliases(
                            match nets[i].1.aliases {
                                Some(a) => strings_view(a@),
                                None => Seq::<Seq<char>>::empty(),
                            },
                            cname,
                        ),
                    ),
                ]
            } else {
                Seq::<(Seq<char>, Seq<char>, Seq<Seq<char>>)>::empty()
            },
            None => Seq::<(Seq<char>, Seq<char>, Seq<Seq<char>>)>::empty(),
        });
        assert(r == head + tail);
        if head.len() > 0 {
            lemma_aliases_exactly_once(
                match nets[i].1.aliases {
                    Some(a) => strings_view(a@),
                    None => Seq::<Seq<char>>::empty(),
                },
                cname,
            );
            assert(crate::container::alias_list_wf(head[0].2, cname));
        }
        assert forall|a: int, b: int|
            0 <= a < b < r.len() implies r[a].0 != r[b].0 by {
            if a < head.len() {
                assert(r[a].0 == nm);
                assert(r[b] == tail[b - head.len()]);
                assert(!seen2.contains(tail[b - head.len()].0));
            } else {
                assert(r[a] == tail[a - head.len()]);
                assert(r[b] == tail[b - head.len()]);
            }
        }
        assert forall|a: int|
            0 <= a < r.len() implies !seen.contains(r[a].0) by {
            if a >= head.len() {
                assert(r[a] == tail[a - head.len()]);
                assert(!seen2.contains(tail[a - head.len()].0));
            }
        }
        assert forall|a: int|
            0 <= a < r.len() implies crate::container::alias_list_wf(r[a].2, cname) by {
            if a >= head.len() {
                assert(r[a] == tail[a - head.len()]);
            }
        }
    }
}

/// Whether the answer reports at least one port mapping.
pub open spec fn spec_has_ports(ns: InspectNetworkSettings) -> bool {
    match ns.ports {
        Some(n) => n > 0,
        None => false,
    }
}

/// Whether the answer reports the container as running.
pub open spec fn spec_running(state: InspectState) -> bool {
    match state.running {
        Some(r) => r,
        None => false,
    }
}

/// An answer yields a record exactly when identifier, name, state and
/// network settings are all reported and the container has ports or is
/// running.
pub open spec fn spec_extract_some(d: InspectData) -> bool {
    &&& d.id is Some
    &&& d.name is Some
    &&& d.state is Some
    &&& d.network_settings is Some
    &&& {
        let has_ports = match d.network_settings {
            Some(ns) => spec_has_ports(ns),
            None => false,
        };
        let running = match d.state {
            Some(st) => spec_running(st),
            None => false,
        };
        has_ports || running
    }
}

/// Advancing past a leading slash keeps `spec_strip_slashes` unchanged.
proof fn lemma_strip_slashes_step(s: Seq<char>, i: int)
    requires
        0 <= i < s.len(),
        s[i] == '/',
    ensures
        spec_strip_slashes(s.subrange(i, s.len() as int)) == spec_strip_slashes(
            s.subrange(i + 1, s.len() as int),
        ),
{
    let t = s.subrange(i, s.len() as int);
    assert(t.len() > 0 && t[0] == '/');
    assert(t.drop_first() =~= s.subrange(i + 1, s.len() as int));
}

/// `s` with every leading slash removed.
fn strip_slashes(s: &str) -> (r: String)
    ensures
        r@ == spec_strip_slashes(s@),
{
    let len = s.unicode_len();
    proof {
        assert(s@.subrange(0, len as int) =~= s@);
    }
    let mut i: usize = 0;
    while i < len && s.get_char(i) == '/'
        invariant
            i <= len,
            len == s@.len(),
            spec_strip_slashes(s@.subrange(i as int, len as int)) == spec_strip_slashes(s@),
        decreases len - i,
    {
        proof {
            lemma_strip_slashes_step(s@, i as int);
        }
        i = i + 1;
    }
    proof {
        let t = s@.subrange(i as int, len as int);
        assert(t.len() == 0 || t[0] != '/');
        assert(spec_strip_slashes(t) == t);
    }
    String::from_str(s.substring_char(i, len))
}

/// Splits at every comma, keeping segments verbatim.
fn split_commas(s: &str) -> (out: Vec<String>)
    ensures
        strings_view(out@) == spec_split_commas(s@),
{
    let len = s.unicode_len();
    let mut out: Vec<String> = Vec::new();
    let mut start: usize = 0;
    proof {
        assert(s@.skip(0) =~= s@);
    }
    loop
        invariant_except_break
            start <= len,
            len == s@.len(),
            strings_view(out@) + spec_split_commas(s@.skip(start as int)) =~= spec_split_commas(
                s@,
            ),
        ensures
            strings_view(out@) =~= spec_split_commas(s@),
        decreases len - start,
    {
        let rest = s.substring_char(start, len);
        proof {
            assert(rest@ =~= s@.skip(start as int));
        }
        match find_char(rest, ',') {
            Some(k) => {
                proof {
                    crate::strutil::lemma_first_index_props(rest@, ',');
                }
                let seg = rest.substring_char(0, k);
                let ghost pre = out@;
                out.push(String::from_str(seg));
                proof {
                    assert(seg@ =~= rest@.take(k as int));
                    assert(strings_view(out@) =~= strings_view(pre).push(rest@.take(k as int)));
                    assert(spec_split_commas(rest@) == seq![rest@.take(k as int)]
                        + spec_split_commas(rest@.skip(k + 1)));
                    assert(s@.skip(start + k + 1) =~= rest@.skip(k + 1));
                    assert(strings_view(out@) + spec_split_commas(s@.skip(start + k + 1))
                        =~= spec_split_commas(s@));
                }
                start = start + k + 1;
            },
            None => {
                let ghost pre = out@;
                out.push(String::from_str(rest));
                proof {
                    assert(spec_split_commas(rest@) == seq![rest@]);
                    assert(strings_view(out@) =~= strings_view(pre).push(rest@));
                    assert(strings_view(out@) =~= spec_split_commas(s@));
                }
                break ;
            },
        }
    }
    out
}

/// The domain tokens of one comma-separated value.
fn domain_list(s: &str) -> (out: Vec<String>)
    ensures
        strings_view(out@) == spec_domain_list(s@),
{
    let parts = split_commas(s);
    let ghost pv = strings_view(parts@);
    let n = parts.len();
    let mut out: Vec<String> = Vec::new();
    let mut i: usize = 0;
    while i < n
        invariant
            i <= n,
            n == parts@.len(),
            pv == strings_view(parts@),
            strings_view(out@) + spec_clean_from(pv, i as int) =~= spec_clean_from(pv, 0),
        decreases n - i,
    {
        let t = trim(parts[i].as_str());
        let ghost pre = out@;
        if !t.is_empty() {
            out.push(String::from_str(t));
            proof {
                assert(strings_view(out@) =~= strings_view(pre).push(spec_trim(pv[i as int])));
            }
        }
        proof {
            assert(spec_clean_from(pv, i as int) == (if spec_trim(pv[i as int]).len() > 0 {
                seq![spec_trim(pv[i as int])]
            } else {
                Seq::<Seq<char>>::empty()
            }) + spec_clean_from(pv, i + 1));
            assert(strings_view(out@) + spec_clean_from(pv, i + 1) =~= spec_clean_from(pv, 0));
        }
        i = i + 1;
    }
    proof {
        assert(spec_clean_from(pv, n as int) == Seq::<Seq<char>>::empty());
        assert(strings_view(out@) =~= spec_clean_from(pv, 0));
    }
    out
}

/// The domain tokens carried by the environment entries.
fn env_domains(env: &Vec<String>) -> (out: Vec<String>)
    ensures
        strings_view(out@) == spec_env_domains_from(strings_view(env@), 0),
{
    let ghost ev = strings_view(env@);
    let n = env.len();
    let mut out: Vec<String> = Vec::new();
    let mut i: usize = 0;
    while i < n
        invariant
            i <= n,
            n == env@.len(),
            ev == strings_view(env@),
            strings_view(out@) + spec_env_domains_from(ev, i as int) =~= spec_env_domains_from(
                ev,
                0,
            ),
        decreases n - i,
    {
        let entry = env[i].as_str();
        let entry_len = entry.unicode_len();
        let prefix = "DOMAIN_NAME=";
        let plen = prefix.unicode_len();
        let ghost pre = out@;
        if entry_len >= plen && str_eq(entry.substring_char(0, plen), prefix) {
            proof {
                assert(entry@.take(spec_domain_prefix().len() as int) =~= spec_domain_prefix());
                assert(spec_has_prefix(ev[i as int], spec_domain_prefix()));
            }
            let value = entry.substring_char(plen, entry_len);
            proof {
                assert(value@ =~= ev[i as int].skip(spec_domain_prefix().len() as int));
            }
            let toks = domain_list(value);
            crate::strutil::append_strings(&mut out, &toks);
        } else {
            proof {
                if spec_has_prefix(ev[i as int], spec_domain_prefix()) {
                    assert(entry@.take(spec_domain_prefix().len() as int)
                        =~= spec_domain_prefix());
                }
            }
        }
        proof {
            assert(spec_env_domains_from(ev, i as int) == (if spec_has_prefix(
                ev[i as int],
                spec_domain_prefix(),
            ) {
                spec_domain_list(ev[i as int].skip(spec_domain_prefix().len() as int))
            } else {
                Seq::<Seq<char>>::empty()
            }) + spec_env_domains_from(ev, i + 1));
            assert(strings_view(out@) + spec_env_domains_from(ev, i + 1)
                =~= spec_env_domains_from(ev, 0));
        }
        i = i + 1;
    }
    proof {
        assert(spec_env_domains_from(ev, n as int) == Seq::<Seq<char>>::empty());
        assert(strings_view(out@) =~= spec_env_domains_from(ev, 0));
    }
    out
}

/// The value of the first label bearing `key`, if any.
fn lookup_label<'a>(labels: &'a Vec<(String, String)>, key: &str) -> (r: Option<&'a String>)
    ensures
        match r {
            Some(v) => spec_lookup(pairs_view(labels@), key@) == Some(v@),
            None => spec_lookup(pairs_view(labels@), key@) is None,
        },
{
    let ghost lv = pairs_view(labels@);
    let n = labels.len();
    proof {
        assert(lv.skip(0) =~= lv);
    }
    let mut i: usize = 0;
    while i < n
        invariant
            i <= n,
            n == labels@.len(),
            lv == pairs_view(labels@),
            spec_lookup(lv.skip(i as int), key@) == spec_lookup(lv, key@),
        decreases n - i,
    {
        if str_eq(labels[i].0.as_str(), key) {
            proof {
                assert(lv.skip(i as int)[0] == lv[i as int]);
                assert(spec_lookup(lv.skip(i as int), key@) == Some(lv[i as int].1));
            }
            return Some(&labels[i].1);
        }
        proof {
            assert(lv.skip(i as int)[0] == lv[i as int]);
            assert(lv.skip(i as int).drop_first() =~= lv.skip(i + 1));
        }
        i = i + 1;
    }
    proof {
        assert(lv.skip(n as int) =~= Seq::<(Seq<char>, Seq<char>)>::empty());
    }
    None
}

/// Turns an inspection answer into a container record, or nothing when the
/// answer is incomplete or the container neither has ports nor runs. The
/// global address is never populated from inspection data; the field and its
/// derivation rule are kept for integrations that set it.
pub fn extract_container_info(d: InspectData) -> (r: Option<ContainerInfo>)
    ensures
        match r {
            Some(info) => {
                &&& spec_extract_some(d)
                &&& info.id@ == (match d.id {
                    Some(x) => x@,
                    None => Seq::empty(),
                })
                &&& info.name@ == spec_strip_slashes(
                    match d.name {
                        Some(x) => x@,
                        None => Seq::empty(),
                    },
                )
                &&& info.running == (match d.state {
                    Some(st) => spec_running(st),
                    None => false,
                })
                &&& info.ip_address is None
                &&& networks_view(info.networks@) == (match d.network_settings {
                    Some(ns) => spec_networks(ns, info.name@),
                    None => Seq::empty(),
                })
                &&& strings_view(info.domain_names@) == spec_domains(d.config)
                &&& crate::container::networks_unique(info)
                &&& crate::container::aliases_wf(info)
            },
            None => !spec_extract_some(d),
        },
{
    let id = match d.id {
        Some(x) => x,
        None => {
            return None;
        },
    };
    let name_raw = match d.name {
        Some(x) => x,
        None => {
            return None;
        },
    };
    let state = match d.state {
        Some(x) => x,
        None => {
            return None;
        },
    };
    let running = match state.running {
        Some(b) => b,
        None => false,
    };
    let settings = match d.network_settings {
        Some(x) => x,
        None => {
            return None;
        },
    };
    let has_ports = match settings.ports {
        Some(n) => n > 0,
        None => false,
    };
    if !has_ports && !running {
        return None;
    }
    let name = strip_slashes(name_raw.as_str());

    let nets = match settings.networks {
        Some(v) => v,
        None => Vec::new(),
    };
    let ghost orig = nets@;
    let ghost cname = name@;
    let mut networks: Vec<(String, NetworkInfo)> = Vec::new();
    let mut seen_names: Vec<String> = Vec::new();
    proof {
        assert(names_set(strings_view(seen_names@)) =~= Set::<Seq<char>>::empty());
    }
    let mut rest = nets;
    while rest.len() > 0
        invariant
            rest@.len() <= orig.len(),
            rest@ =~= orig.skip(orig.len() - rest@.len()),
            cname == name@,
            networks_view(networks@) + spec_networks_from(
                orig,
                cname,
                orig.len() - rest@.len(),
                names_set(strings_view(seen_names@)),
            ) =~= spec_networks_from(orig, cname, 0, Set::empty()),
        decreases rest@.len(),
    {
        let ghost i = orig.len() - rest@.len();
        let ghost seen = names_set(strings_view(seen_names@));
        let (net_name, net) = rest.remove(0);
        proof {
            assert(net_name == orig[i].0 && net == orig[i].1);
        }
        let ghost pre = networks@;
        if crate::strutil::contains_str(&seen_names, net_name.as_str()) {
            proof {
                assert(seen.contains(orig[i].0@));
                assert(spec_networks_from(orig, cname, i, seen) == spec_networks_from(
                    orig,
                    cname,
                    i + 1,
                    seen,
                ));
            }
        } else {
            let ghost seen_pre = strings_view(seen_names@);
            seen_names.push(net_name.clone());
            proof {
                assert(!seen.contains(orig[i].0@));
                let nv = strings_view(seen_names@);
                assert(nv =~= seen_pre.push(orig[i].0@));
                assert forall|x: Seq<char>| #[trigger]
                    nv.contains(x) == (seen_pre.contains(x) || x == orig[i].0@) by {
                    if nv.contains(x) {
                        let w = choose|w: int| 0 <= w < nv.len() && nv[w] == x;
                        if w < seen_pre.len() {
                            assert(seen_pre[w] == x);
                        }
                    }
                    if seen_pre.contains(x) {
                        let w = choose|w: int| 0 <= w < seen_pre.len() && seen_pre[w] == x;
                        assert(nv[w] == x);
                    }
                    if x == orig[i].0@ {
                        assert(nv[nv.len() - 1] == x);
                    }
                }
                assert(names_set(nv) =~= seen.insert(orig[i].0@));
            }
            match net.ip_address {
                Some(ip) => {
                    if !ip.as_str().is_empty() {
                        let reported_vec = match net.aliases {
                            Some(a) => a,
                            None => Vec::new(),
                        };
                        let ghost reported = strings_view(reported_vec@);
                        proof {
                            assert(reported =~= (match orig[i].1.aliases {
                                Some(a) => strings_view(a@),
                                None => Seq::<Seq<char>>::empty(),
                            }));
                        }
                        let mut aliases = dedup_strings(&reported_vec);
                        if !crate::strutil::contains_str(&aliases, name.as_str()) {
                            let ghost kept = strings_view(aliases@);
                            aliases.push(name.clone());
                            proof {
                                assert(strings_view(aliases@) =~= kept.push(cname));
                            }
                        }
                        proof {
                            assert(strings_view(aliases@) == spec_aliases(reported, cname));
                        }
                        networks.push((net_name, NetworkInfo { ip_address: ip, aliases }));
                        proof {
                            assert(networks_view(networks@) =~= networks_view(pre).push(
                                (
                                    orig[i].0@,
                                    (match orig[i].1.ip_address {
                                        Some(x) => x@,
                                        None => Seq::empty(),
                                    }),
                                    spec_aliases(
                                        match orig[i].1.aliases {
                                            Some(a) => strings_view(a@),
                                            None => Seq::<Seq<char>>::empty(),
                                        },
                                        cname,
                                    ),
                                ),
                            ));
                        }
                    }
                },
                None => {},
            }
            proof {
                assert(spec_networks_from(orig, cname, i, seen) == (match orig[i].1.ip_address {
                    Some(ip) => if ip@.len() > 0 {
                        seq![
                            (
                                orig[i].0@,
                                ip@,
                                spec_aliases(
                                    match orig[i].1.aliases {
                                        Some(a) => strings_view(a@),
                                        None => Seq::<Seq<char>>::empty(),
                                    },
                                    cname,
                                ),
                            ),
                        ]
                    } else {
                        Seq::<(Seq<char>, Seq<char>, Seq<Seq<char>>)>::empty()
                    },
                    None => Seq::<(Seq<char>, Seq<char>, Seq<Seq<char>>)>::empty(),
                }) + spec_networks_from(orig, cname, i + 1, seen.insert(orig[i].0@)));
            }
        }
        proof {
            assert(networks_view(networks@) + spec_networks_from(
                orig,
                cname,
                i + 1,
                names_set(strings_view(seen_names@)),
            ) =~= spec_networks_from(orig, cname, 0, Set::empty()));
            assert(rest@ =~= orig.skip(orig.len() - rest@.len()));
        }
    }
    proof {
        assert(spec_networks_from(
            orig,
            cname,
            orig.len() as int,
            names_set(strings_view(seen_names@)),
        ) == Seq::<(Seq<char>, Seq<char>, Seq<Seq<char>>)>::empty());
        assert(networks_view(networks@) =~= spec_networks_from(orig, cname, 0, Set::empty()));
    }

    let mut domain_names: Vec<String> = Vec::new();
    match d.config {
        Some(cfg) => {
            let env = match cfg.env {
                Some(e) => e,
                None => Vec::new(),
            };
            domain_names = env_domains(&env);
            let labels = match cfg.labels {
                Some(l) => l,
                None => Vec::new(),
            };
            match lookup_label(&labels, "dev.orbstack.domains") {
                Some(v) => {
                    let toks = domain_list(v.as_str());
                    crate::strutil::append_strings(&mut domain_names, &toks);
                },
                None => {},
            }
        },
        None => {},
    }

    let info = ContainerInfo {
        id,
        name,
        ip_address: None,
        networks,
        domain_names,
        running,
    };
    proof {
        lemma_networks_from_wf(orig, cname, 0, Set::empty());
        let r = spec_networks_from(orig, cname, 0, Set::empty());
        assert forall|a: int, b: int|
            0 <= a < b < info.networks@.len() implies (#[trigger] info.networks@[a]).0@
            != (#[trigger] info.networks@[b]).0@ by {
            assert(networks_view(info.networks@)[a] == r[a]);
            assert(networks_view(info.networks@)[b] == r[b]);
        }
        assert forall|k: int|
            0 <= k < info.networks@.len() implies crate::container::alias_list_wf(
            strings_view((#[trigger] info.networks@[k]).1.aliases@),
            info.name@,
        ) by {
            assert(networks_view(info.networks@)[k] == r[k]);
            assert(strings_view(info.networks@[k].1.aliases@) == r[k].2);
        }
    }
    Some(info)
}

} // verus!
