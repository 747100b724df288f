//! The state store: the single source of truth for which containers are
//! active.
//!
//! A record is present exactly while its container is considered active
//! (running and exposing a resolvable address); ids are unique and a fresh
//! inspection always replaces the prior record wholesale. The store is an
//! association list in insertion order, so snapshots iterate
//! deterministically.

use vstd::prelude::*;

use crate::container::{is_active, ContainerInfo};

verus! {

/// A concurrency-safe mapping is built around this type by the caller (one
/// lock, short critical sections); the store itself is the plain map with its
/// invariant.
pub struct StateStore {
    entries: Vec<(String, ContainerInfo)>,
}

/// Index of the first record with the given id, or `-1`.
pub open spec fn spec_index_of(records: Seq<(Seq<char>, ContainerInfo)>, id: Seq<char>) -> int
    decreases records.len(),
{
    if records.len() == 0 {
        -1
    } else if records[0].0 == id {
        0
    } else if spec_index_of(records.drop_first(), id) < 0 {
        -1
    } else {
        spec_index_of(records.drop_first(), id) + 1
    }
}

/// Insert-or-replace: a present id keeps its position and takes the new
/// record; a new id is appended.
pub open spec fn spec_insert(
    records: Seq<(Seq<char>, ContainerInfo)>,
    id: Seq<char>,
    info: ContainerInfo,
) -> Seq<(Seq<char>, ContainerInfo)> {
    let j = spec_index_of(records, id);
    if j >= 0 {
        records.update(j, (id, info))
    } else {
        records.push((id, info))
    }
}

/// One step of a full resync: a listed container is inserted when its id is
/// non-empty, it could be inspected, and it passes the eligibility predicate.
pub open spec fn spec_resync_step(
    records: Seq<(Seq<char>, ContainerInfo)>,
    id: Seq<char>,
    inspected: Option<ContainerInfo>,
) -> Seq<(Seq<char>, ContainerInfo)> {
    match inspected {
        Some(info) => if id.len() > 0 && is_active(info) {
            spec_insert(records, id, info)
        } else {
            records
        },
        None => records,
    }
}

/// Folding [`spec_resync_step`] over the inspection results from `i` on.
pub open spec fn spec_resync_from(
    records: Seq<(Seq<char>, ContainerInfo)>,
    items: Seq<(String, Option<ContainerInfo>)>,
    i: int,
) -> Seq<(Seq<char>, ContainerInfo)>
    decreases items.len() - i,
{
    if i < 0 || i >= items.len() {
        records
    } else {
        spec_resync_from(
            spec_resync_step(records, items[i].0@, items[i].1),
            items,
            i + 1,
        )
    }
}

/// If `c` first occurs at `i`, then `spec_index_of` says so.
pub proof fn lemma_index_of_at(records: Seq<(Seq<char>, ContainerInfo)>, id: Seq<char>, i: int)
    requires
        0 <= i < records.len(),
        forall|j: int| 0 <= j < i ==> records[j].0 != id,
        records[i].0 == id,
    ensures
        spec_index_of(records, id) == i,
    decreases i,
{
    if i > 0 {
        let t = records.drop_first();
        assert forall|j: int| 0 <= j < i - 1 implies t[j].0 != id by {
            assert(t[j] == records[j + 1]);
        }
        assert(t[i - 1] == records[i]);
        lemma_index_of_at(t, id, i - 1);
    }
}

/// If no record bears `id`, `spec_index_of` is `-1`.
pub proof fn lemma_index_of_absent(records: Seq<(Seq<char>, ContainerInfo)>, id: Seq<char>)
    requires
        forall|j: int| 0 <= j < records.len() ==> records[j].0 != id,
    ensures
        spec_index_of(records, id) == -1,
    decreases records.len(),
{
    if records.len() > 0 {
        let t = records.drop_first();
        assert forall|j: int| 0 <= j < t.len() implies t[j].0 != id by {
            assert(t[j] == records[j + 1]);
        }
        lemma_index_of_absent(t, id);
    }
}

/// A `-1` from `spec_index_of` means no record bears the id.
pub proof fn lemma_index_of_none(records: Seq<(Seq<char>, ContainerInfo)>, id: Seq<char>)
    requires
        spec_index_of(records, id) == -1,
    ensures
        forall|j: int| 0 <= j < records.len() ==> records[j].0 != id,
    decreases records.len(),
{
    if records.len() > 0 {
        let t = records.drop_first();
        assert(records[0].0 != id);
        lemma_index_of_none(t, id);
        assert forall|j: int| 0 <= j < records.len() implies records[j].0 != id by {
            if j > 0 {
                assert(records[j] == t[j - 1]);
            }
        }
    }
}

/// What a non-negative `spec_index_of` means.
pub proof fn lemma_index_of_props(records: Seq<(Seq<char>, ContainerInfo)>, id: Seq<char>)
    requires
        spec_index_of(records, id) >= 0,
    ensures
        spec_index_of(records, id) < records.len(),
        records[spec_index_of(records, id)].0 == id,
        forall|j: int| 0 <= j < spec_index_of(records, id) ==> records[j].0 != id,
    decreases records.len(),
{
    if records.len() > 0 && records[0].0 != id {
        let t = records.drop_first();
        lemma_index_of_props(t, id);
        let i = spec_index_of(records, id);
        assert(records[i] == t[i - 1]);
        assert forall|j: int| 0 <= j < i implies records[j].0 != id by {
            if j > 0 {
                assert(records[j] == t[j - 1]);
            }
        }
    }
}

/// Eligibility (law): a well-formed store never holds a record that fails
/// the eligibility predicate — in particular, a container reported as not
/// running is never present, whatever network attachments it once had.
pub proof fn lemma_store_only_active(s: StateStore)
    requires
        s.wf(),
    ensures
        forall|i: int| 0 <= i < s.records().len() ==> (#[trigger] s.records()[i].1).running,
        forall|i: int| 0 <= i < s.records().len() ==> is_active(#[trigger] s.records()[i].1),
{
    assert forall|i: int| 0 <= i < s.records().len() implies (#[trigger] s.records()[i].1).running by {
        assert(is_active(s.records()[i].1));
    }
}

impl StateStore {
    /// The records, in iteration order, as (id view, record) pairs.
    pub closed spec fn records(self) -> Seq<(Seq<char>, ContainerInfo)> {
        self.entries@.map_values(|p: (String, ContainerInfo)| (p.0@, p.1))
    }

    /// Well-formedness: ids are unique, and every stored record passes the
    /// eligibility predicate — in particular no stopped container is ever
    /// present.
    pub open spec fn wf(self) -> bool {
        &&& forall|i: int, j: int|
            0 <= i < j < self.records().len() ==> self.records()[i].0 != self.records()[j].0
        &&& forall|i: int| 0 <= i < self.records().len() ==> is_active(#[trigger] self.records()[i].1)
    }

    /// An empty store.
    pub fn new() -> (s: Self)
        ensures
            s.records() == Seq::<(Seq<char>, ContainerInfo)>::empty(),
            s.wf(),
    {
        let s = StateStore { entries: Vec::new() };
        proof {
            assert(s.records() =~= Seq::<(Seq<char>, ContainerInfo)>::empty());
        }
        s
    }

    /// How many containers are active.
    pub fn len(&self) -> (n: usize)
        ensures
            n == self.records().len(),
    {
        self.entries.len()
    }

    /// The stored record at position `i`, for iteration over a snapshot.
    pub fn record_at(&self, i: usize) -> (r: &(String, ContainerInfo))
        requires
            i < self.records().len(),
        ensures
            r.0@ == self.records()[i as int].0,
            r.1 == self.records()[i as int].1,
    {
        &self.entries[i]
    }

    /// Removes every record.
    pub fn clear(&mut self)
        ensures
            final(self).records() == Seq::<(Seq<char>, ContainerInfo)>::empty(),
            final(self).wf(),
    {
        self.entries.clear();
        proof {
            assert(self.records() =~= Seq::<(Seq<char>, ContainerInfo)>::empty());
        }
    }

    /// Position of the record with this id, if present.
    fn position_of(&self, id: &str) -> (r: Option<usize>)
        ensures
            match r {
                Some(i) => i == spec_index_of(self.records(), id@) && i < self.records().len(),
                None => spec_index_of(self.records(), id@) == -1,
            },
    {
        let n = self.entries.len();
        let mut i: usize = 0;
        while i < n
            invariant
                i <= n,
                n == self.records().len(),
                forall|j: int| 0 <= j < i ==> self.records()[j].0 != id@,
            decreases n - i,
        {
            if crate::strutil::str_eq(self.entries[i].0.as_str(), id) {
                proof {
                    lemma_index_of_at(self.records(), id@, i as int);
                }
                return Some(i);
            }
            i = i + 1;
        }
        proof {
            lemma_index_of_absent(self.records(), id@);
        }
        None
    }

    /// Inserts or replaces the record for `id`; replacement is wholesale,
    /// never a field-level merge.
    pub fn insert(&mut self, id: &str, info: ContainerInfo)
        requires
            old(self).wf(),
            is_active(info),
        ensures
            final(self).records() == spec_insert(old(self).records(), id@, info),
            final(self).wf(),
    {
        match self.position_of(id) {
            Some(i) => {
                let ghost pre = self.records();
                self.entries.set(i, (String::from_str(id), info));
                proof {
                    lemma_index_of_props(pre, id@);
                    assert(pre[i as int].0 == id@);
                    assert(self.records() =~= pre.update(i as int, (id@, info)));
                    assert(forall|x: int|
                        0 <= x < self.records().len() ==> (#[trigger] self.records()[x]).0
                            == pre[x].0);
                    assert forall|x: int| 0 <= x < self.records().len() implies is_active(
                        #[trigger] self.records()[x].1,
                    ) by {
                        if x != i as int {
                            assert(self.records()[x].1 == pre[x].1);
                        }
                    }
                }
            },
            None => {
                let ghost pre = self.records();
                self.entries.push((String::from_str(id), info));
                proof {
                    assert(self.records() =~= pre.push((id@, info)));
                    lemma_index_of_none(pre, id@);
                    assert forall|i: int, j: int|
                        0 <= i < j < self.records().len() implies self.records()[i].0
                        != self.records()[j].0 by {
                        if j < pre.len() {
                        } else {
                            assert(self.records()[j].0 == id@);
                            assert(pre[i].0 != id@);
                        }
                    }
                }
            },
        }
    }

    /// Removes the record for `id`, handing it back when one was present.
    pub fn remove(&mut self, id: &str) -> (removed: Option<ContainerInfo>)
        requires
            old(self).wf(),
        ensures
            final(self).wf(),
            ({
                let j = spec_index_of(old(self).records(), id@);
                match removed {
                    Some(info) => j >= 0 && info == old(self).records()[j].1
                        && final(self).records() == old(self).records().remove(j),
                    None => j == -1 && final(self).records() == old(self).records(),
                }
            }),
    {
        match self.position_of(id) {
            Some(i) => {
                let ghost pre = self.records();
                let (_, info) = self.entries.remove(i);
                proof {
                    assert(self.records() =~= pre.remove(i as int));
                }
                Some(info)
            },
            None => None,
        }
    }

    /// Applies an attach-class event: the freshly inspected record replaces
    /// any prior one when it passes the eligibility predicate, and a write is
    /// owed exactly then; an uninspectable or ineligible container changes
    /// nothing.
    pub fn apply_attach(&mut self, id: &str, inspected: Option<ContainerInfo>) -> (signal: bool)
        requires
            old(self).wf(),
        ensures
            final(self).wf(),
            match inspected {
                Some(info) => if is_active(info) {
                    signal && final(self).records() == spec_insert(old(self).records(), id@, info)
                } else {
                    !signal && final(self).records() == old(self).records()
                },
                None => !signal && final(self).records() == old(self).records(),
            },
    {
        match inspected {
            Some(info) => {
                if info.has_exposed_ports() {
                    self.insert(id, info);
                    true
                } else {
                    false
                }
            },
            None => false,
        }
    }

    /// Applies a detach-class event: the record is removed when present, and
    /// a write is owed exactly when something was actually removed.
    pub fn apply_detach(&mut self, id: &str) -> (signal: bool)
        requires
            old(self).wf(),
        ensures
            final(self).wf(),
            signal == (spec_index_of(old(self).records(), id@) >= 0),
            final(self).records() == (if spec_index_of(old(self).records(), id@) >= 0 {
                old(self).records().remove(spec_index_of(old(self).records(), id@))
            } else {
                old(self).records()
            }),
    {
        match self.remove(id) {
            Some(_) => true,
            None => false,
        }
    }

    /// Full resync: clears the store and inserts every listed container with
    /// a non-empty id whose inspection succeeded and passed the eligibility
    /// predicate; inspection failures are simply omitted.
    pub fn rebuild(&mut self, items: Vec<(String, Option<ContainerInfo>)>)
        ensures
            final(self).wf(),
            final(self).records() == spec_resync_from(
                Seq::<(Seq<char>, ContainerInfo)>::empty(),
                items@,
                0,
            ),
    {
        let ghost orig = items@;
        self.clear();
        let mut rest = items;
        while rest.len() > 0
            invariant
                self.wf(),
                rest@.len() <= orig.len(),
                rest@ =~= orig.skip(orig.len() - rest@.len()),
                spec_resync_from(self.records(), orig, orig.len() - rest@.len())
                    == spec_resync_from(Seq::<(Seq<char>, ContainerInfo)>::empty(), orig, 0),
            decreases rest@.len(),
        {
            let ghost i = orig.len() - rest@.len();
            let ghost pre = self.records();
            let (id, inspected) = rest.remove(0);
            proof {
                assert(id == orig[i].0 && inspected == orig[i].1);
            }
            match inspected {
                Some(info) => {
                    if !id.as_str().is_empty() && info.has_exposed_ports() {
                        self.insert(id.as_str(), info);
                    }
                },
                None => {},
            }
            proof {
                assert(self.records() == spec_resync_step(pre, orig[i].0@, orig[i].1));
                assert(spec_resync_from(pre, orig, i) == spec_resync_from(
                    spec_resync_step(pre, orig[i].0@, orig[i].1),
                    orig,
                    i + 1,
                ));
                assert(rest@ =~= orig.skip(orig.len() - rest@.len()));
            }
        }
        proof {
            assert(spec_resync_from(self.records(), orig, orig.len() as int) == self.records());
        }
    }
}

} // verus!
