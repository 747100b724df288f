//! From a store snapshot to the managed lines of the hosts file.
//!
//! Every record contributes one line per address grouping, in store order:
//! the address, a space, then the hostnames separated by single spaces.
//! [`updated_content`] composes this with the patcher: it is the whole
//! computation of a write, from current file content and store snapshot to
//! new file content.

use vstd::prelude::*;

use crate::container::{groups_view, spec_hostnames, ContainerInfo};
use crate::hosts::{patch_content, spec_patch_content};
use crate::store::StateStore;
use crate::strutil::strings_view;

verus! {

/// The first `i` hostnames joined with single spaces.
pub open spec fn spec_join_pre(hosts: Seq<Seq<char>>, i: int) -> Seq<char>
    decreases i,
{
    if i <= 0 || i > hosts.len() {
        Seq::empty()
    } else if i == 1 {
        hosts[0]
    } else {
        spec_join_pre(hosts, i - 1) + seq![' '] + hosts[i - 1]
    }
}

/// All hostnames joined with single spaces.
pub open spec fn spec_join_spaces(hosts: Seq<Seq<char>>) -> Seq<char> {
    spec_join_pre(hosts, hosts.len() as int)
}

/// One managed line: the address, a space, the hostnames.
pub open spec fn spec_entry_line(ip: Seq<char>, hosts: Seq<Seq<char>>) -> Seq<char> {
    ip + seq![' '] + spec_join_spaces(hosts)
}

/// The lines contributed by the groupings from `i` on; a grouping with no
/// hostnames contributes none.
pub open spec fn spec_group_lines_from(groups: Seq<(Seq<char>, Seq<Seq<char>>)>, i: int) -> Seq<
    Seq<char>,
>
    decreases groups.len() - i,
{
    if i < 0 || i >= groups.len() {
        Seq::empty()
    } else {
        (if groups[i].1.len() > 0 {
            seq![spec_entry_line(groups[i].0, groups[i].1)]
        } else {
            Seq::empty()
        }) + spec_group_lines_from(groups, i + 1)
    }
}

/// The lines contributed by the records from `i` on, in store order.
pub open spec fn spec_store_lines_from(
    records: Seq<(Seq<char>, ContainerInfo)>,
    tld: Seq<char>,
    i: int,
) -> Seq<Seq<char>>
    decreases records.len() - i,
{
    if i < 0 || i >= records.len() {
        Seq::empty()
    } else {
        spec_group_lines_from(spec_hostnames(records[i].1, tld), 0) + spec_store_lines_from(
            records,
            tld,
            i + 1,
        )
    }
}

/// All managed lines of a store snapshot.
pub open spec fn spec_store_lines(records: Seq<(Seq<char>, ContainerInfo)>, tld: Seq<char>) -> Seq<
    Seq<char>,
> {
    spec_store_lines_from(records, tld, 0)
}

/// Joins hostnames with single spaces.
fn join_spaces(hosts: &Vec<String>) -> (r: String)
    ensures
        r@ == spec_join_spaces(strings_view(hosts@)),
{
    let ghost hv = strings_view(hosts@);
    let mut r = String::new();
    let n = hosts.len();
    let mut i: usize = 0;
    while i < n
        invariant
            i <= n,
            n == hosts@.len(),
            hv == strings_view(hosts@),
            r@ == spec_join_pre(hv, i as int),
        decreases n - i,
    {
        if i > 0 {
            r.append(" ");
        }
        r.append(hosts[i].as_str());
        proof {
            reveal_strlit(" ");
            if i == 0 {
                assert(r@ =~= spec_join_pre(hv, 1));
            } else {
                assert(" "@ =~= seq![' ']);
                assert(r@ =~= spec_join_pre(hv, i as int) + seq![' '] + hv[i as int]);
            }
        }
        i = i + 1;
    }
    r
}

/// Builds one managed line for an address grouping.
pub fn entry_line(ip: &str, hosts: &Vec<String>) -> (r: String)
    ensures
        r@ == spec_entry_line(ip@, strings_view(hosts@)),
{
    let mut r = String::from_str(ip);
    r.append(" ");
    let joined = join_spaces(hosts);
    r.append(joined.as_str());
    proof {
        reveal_strlit(" ");
        assert(r@ =~= spec_entry_line(ip@, strings_view(hosts@)));
    }
    r
}

/// Builds the managed lines for a store snapshot: every record's address
/// groupings in store order, one line per non-empty grouping.
pub fn build_host_entries(store: &StateStore, tld: &str) -> (entries: Vec<String>)
    ensures
        strings_view(entries@) == spec_store_lines(store.records(), tld@),
{
    let mut entries: Vec<String> = Vec::new();
    let n = store.len();
    let mut i: usize = 0;
    while i < n
        invariant
            i <= n,
            n == store.records().len(),
            strings_view(entries@) + spec_store_lines_from(store.records(), tld@, i as int)
                =~= spec_store_lines(store.records(), tld@),
        decreases n - i,
    {
        let rec = store.record_at(i);
        let groups = rec.1.get_hostnames(tld);
        let ghost gv = groups_view(groups@);
        proof {
            assert(gv == spec_hostnames(store.records()[i as int].1, tld@));
        }
        let m = groups.len();
        let mut g: usize = 0;
        while g < m
            invariant
                g <= m,
                m == groups@.len(),
                gv == groups_view(groups@),
                i < store.records().len(),
                gv == spec_hostnames(store.records()[i as int].1, tld@),
                strings_view(entries@) + spec_group_lines_from(gv, g as int)
                    + spec_store_lines_from(store.records(), tld@, i + 1) =~= spec_store_lines(
                    store.records(),
                    tld@,
                ),
            decreases m - g,
        {
            let ghost pre = entries@;
            if groups[g].1.len() > 0 {
                let line = entry_line(groups[g].0.as_str(), &groups[g].1);
                let ghost lv = line@;
                entries.push(line);
                proof {
                    assert(gv[g as int] == (groups@[g as int].0@, strings_view(
                        groups@[g as int].1@,
                    )));
                    assert(lv == spec_entry_line(gv[g as int].0, gv[g as int].1));
                    assert(strings_view(entries@) =~= strings_view(pre).push(lv));
                    assert(spec_group_lines_from(gv, g as int) == seq![lv]
                        + spec_group_lines_from(gv, g + 1));
                }
            } else {
                proof {
                    assert(gv[g as int] == (groups@[g as int].0@, strings_view(
                        groups@[g as int].1@,
                    )));
                    assert(spec_group_lines_from(gv, g as int) == spec_group_lines_from(gv, g + 1));
                }
            }
            proof {
                assert(strings_view(entries@) + spec_group_lines_from(gv, g + 1)
                    + spec_store_lines_from(store.records(), tld@, i + 1) =~= spec_store_lines(
                    store.records(),
                    tld@,
                ));
            }
            g = g + 1;
        }
        proof {
            assert(spec_group_lines_from(gv, m as int) == Seq::<Seq<char>>::empty());
            assert(spec_store_lines_from(store.records(), tld@, i as int)
                == spec_group_lines_from(gv, 0) + spec_store_lines_from(
                store.records(),
                tld@,
                i + 1,
            ));
            assert(strings_view(entries@) + spec_store_lines_from(store.records(), tld@, i + 1)
                =~= spec_store_lines(store.records(), tld@));
        }
        i = i + 1;
    }
    proof {
        assert(spec_store_lines_from(store.records(), tld@, n as int)
            == Seq::<Seq<char>>::empty());
        assert(strings_view(entries@) =~= spec_store_lines(store.records(), tld@));
    }
    entries
}

/// The whole computation of one write: the new file content for a store
/// snapshot, a TLD and the current file content.
pub fn updated_content(store: &StateStore, tld: &str, content: &str) -> (r: String)
    ensures
        r@ == spec_patch_content(content@, spec_store_lines(store.records(), tld@)),
{
    let entries = build_host_entries(store, tld);
    patch_content(content, &entries)
}

} // verus!
