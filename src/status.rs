use crate::labels::{
    contains_label, distro_hold_of, has_distro_label, has_two_distro_labels, is_distro_label,
    label_names, the_distro_label, ReconcileError,
};
use vstd::prelude::*;

verus! {

/// One record of the status document: whether `distro` is in a sync hold.
#[derive(Debug)]
pub struct SyncStatus {
    pub distro: String,
    pub in_sync_hold: bool,
}

/// The map that a sequence of records describes: records are applied in
/// order, so a later record for a distro overrides an earlier one.
pub open spec fn status_map_of(records: Seq<SyncStatus>) -> Map<Seq<char>, bool>
    decreases records.len(),
{
    if records.len() == 0 {
        Map::empty()
    } else {
        status_map_of(records.drop_last()).insert(
            records.last().distro@,
            records.last().in_sync_hold,
        )
    }
}

/// No two records name the same distro.
pub open spec fn distinct_distros(records: Seq<SyncStatus>) -> bool {
    forall|i: int, j: int|
        0 <= i < records.len() && 0 <= j < records.len() && i != j
            ==> records[i].distro@ != records[j].distro@
}

/// A key is in the map exactly when some record names it.
pub proof fn lemma_status_map_domain(records: Seq<SyncStatus>, k: Seq<char>)
    ensures
        status_map_of(records).contains_key(k)
            <==> exists|i: int| 0 <= i < records.len() && records[i].distro@ == k,
    decreases records.len(),
{
    if records.len() > 0 {
        let init = records.drop_last();
        lemma_status_map_domain(init, k);
        if status_map_of(init).contains_key(k) {
            let i = choose|i: int| 0 <= i < init.len() && init[i].distro@ == k;
            assert(records[i].distro@ == k);
        }
        if exists|i: int| 0 <= i < records.len() && records[i].distro@ == k {
            let i = choose|i: int| 0 <= i < records.len() && records[i].distro@ == k;
            if i < records.len() - 1 {
                assert(init[i].distro@ == k);
            }
        }
    }
}

/// The value of a distro is that of the last record that names it.
pub proof fn lemma_last_record_wins(records: Seq<SyncStatus>, i: int)
    requires
        0 <= i < records.len(),
        forall|j: int| i < j < records.len() ==> records[j].distro@ != records[i].distro@,
    ensures
        status_map_of(records).contains_key(records[i].distro@),
        status_map_of(records)[records[i].distro@] == records[i].in_sync_hold,
    decreases records.len(),
{
    if i < records.len() - 1 {
        let init = records.drop_last();
        assert(init[i] == records[i]);
        lemma_last_record_wins(init, i);
    }
}

/// Where distros are distinct, each record's value is the map's.
proof fn lemma_distinct_lookup(records: Seq<SyncStatus>, i: int)
    requires
        distinct_distros(records),
        0 <= i < records.len(),
    ensures
        status_map_of(records).contains_key(records[i].distro@),
        status_map_of(records)[records[i].distro@] == records[i].in_sync_hold,
{
    lemma_last_record_wins(records, i);
}

/// Overwriting the record of a distro in place overwrites its value.
proof fn lemma_status_map_update(records: Seq<SyncStatus>, i: int, r: SyncStatus)
    requires
        distinct_distros(records),
        0 <= i < records.len(),
        r.distro@ == records[i].distro@,
    ensures
        status_map_of(records.update(i, r)) == status_map_of(records).insert(
            r.distro@,
            r.in_sync_hold,
        ),
    decreases records.len(),
{
    let updated = records.update(i, r);
    let init = records.drop_last();
    if i == records.len() - 1 {
        assert(updated.drop_last() =~= init);
        assert(status_map_of(updated) =~= status_map_of(records).insert(r.distro@, r.in_sync_hold));
    } else {
        assert(updated.drop_last() =~= init.update(i, r));
        lemma_status_map_update(init, i, r);
        assert(records.last().distro@ != r.distro@);
        assert(status_map_of(updated) =~= status_map_of(records).insert(r.distro@, r.in_sync_hold));
    }
}

/// Which distros are in a sync hold. Holds one record per distro.
#[derive(Debug)]
pub struct DistroToSyncStatus {
    entries: Vec<SyncStatus>,
}

impl View for DistroToSyncStatus {
    type V = Map<Seq<char>, bool>;

    closed spec fn view(&self) -> Map<Seq<char>, bool> {
        status_map_of(self.entries@)
    }
}

impl DistroToSyncStatus {
    /// The records have distinct distros.
    pub closed spec fn wf(&self) -> bool {
        distinct_distros(self.entries@)
    }

    pub fn new() -> (r: Self)
        ensures
            r.wf(),
            r@ == Map::<Seq<char>, bool>::empty(),
    {
        DistroToSyncStatus { entries: Vec::new() }
    }

    /// Sets the status of `distro`, replacing any earlier one.
    pub fn insert(&mut self, distro: String, in_sync_hold: bool)
        requires
            old(self).wf(),
        ensures
            final(self).wf(),
            final(self)@ == old(self)@.insert(distro@, in_sync_hold),
    {
        let ghost before = self.entries@;
        let n = self.entries.len();
        let mut i: usize = 0;
        while i < n
            invariant
                n == self.entries.len(),
                self.entries@ == before,
                old(self).entries@ == before,
                distinct_distros(before),
                i <= n,
                forall|j: int| 0 <= j < i ==> before[j].distro@ != distro@,
            decreases n - i,
        {
            if self.entries[i].distro == distro {
                let r = SyncStatus { distro, in_sync_hold };
                proof {
                    lemma_status_map_update(before, i as int, r);
                }
                self.entries[i] = r;
                assert(self.entries@ == before.update(i as int, r));
                assert(distinct_distros(self.entries@));
                return;
            }
            i = i + 1;
        }
        let r = SyncStatus { distro, in_sync_hold };
        self.entries.push(r);
        proof {
            assert(self.entries@.drop_last() =~= before);
        }
    }

    /// The status of `distro`, if it has one.
    pub fn get(&self, distro: &str) -> (r: Option<bool>)
        requires
            self.wf(),
        ensures
            r == (if self@.contains_key(distro@) {
                Some(self@[distro@])
            } else {
                None
            }),
    {
        let key: String = distro.to_owned();
        let n = self.entries.len();
        let mut i: usize = 0;
        while i < n
            invariant
                n == self.entries.len(),
                i <= n,
                key@ == distro@,
                distinct_distros(self.entries@),
                forall|j: int| 0 <= j < i ==> self.entries@[j].distro@ != distro@,
            decreases n - i,
        {
            if self.entries[i].distro == key {
                proof {
                    lemma_distinct_lookup(self.entries@, i as int);
                }
                return Some(self.entries[i].in_sync_hold);
            }
            i = i + 1;
        }
        proof {
            lemma_status_map_domain(self.entries@, distro@);
        }
        None
    }

    /// Whether the one known distro that `labels` names is in a sync hold;
    /// an error where they name none, or more than one.
    pub fn distro_hold(&self, labels: &Vec<String>) -> (r: Result<bool, ReconcileError>)
        requires
            self.wf(),
        ensures
            r == distro_hold_of(self@, label_names(labels@)),
    {
        let ghost names = label_names(labels@);
        let n = self.entries.len();
        let mut found: Option<usize> = None;
        let mut i: usize = 0;
        while i < n
            invariant
                n == self.entries.len(),
                i <= n,
                names == label_names(labels@),
                distinct_distros(self.entries@),
                found matches Some(j) ==> j < i && names.contains(self.entries@[j as int].distro@),
                forall|j: int|
                    0 <= j < i && names.contains(#[trigger] self.entries@[j].distro@) ==> found
                        == Some(j as usize),
            decreases n - i,
        {
            if contains_label(labels, &self.entries[i].distro) {
                if let Some(j) = found {
                    proof {
                        let d1 = self.entries@[j as int].distro@;
                        let d2 = self.entries@[i as int].distro@;
                        lemma_distinct_lookup(self.entries@, j as int);
                        lemma_distinct_lookup(self.entries@, i as int);
                        assert(is_distro_label(self@, names, d1));
                        assert(is_distro_label(self@, names, d2));
                        assert(d1 != d2);
                        assert(has_two_distro_labels(self@, names));
                    }
                    return Err(ReconcileError::AmbiguousDistroLabel);
                }
                found = Some(i);
            }
            i = i + 1;
        }
        match found {
            None => {
                proof {
                    assert forall|d: Seq<char>| !is_distro_label(self@, names, d) by {
                        lemma_status_map_domain(self.entries@, d);
                        if self@.contains_key(d) {
                            let k = choose|k: int|
                                0 <= k < self.entries@.len() && self.entries@[k].distro@ == d;
                            assert(!names.contains(self.entries@[k].distro@));
                        }
                    }
                }
                Err(ReconcileError::MissingDistroLabel)
            },
            Some(j) => {
                proof {
                    let d0 = self.entries@[j as int].distro@;
                    lemma_distinct_lookup(self.entries@, j as int);
                    assert(is_distro_label(self@, names, d0));
                    assert forall|d: Seq<char>| is_distro_label(self@, names, d) implies d == d0 by {
                        lemma_status_map_domain(self.entries@, d);
                        let k = choose|k: int|
                            0 <= k < self.entries@.len() && self.entries@[k].distro@ == d;
                        assert(names.contains(self.entries@[k].distro@));
                    }
                    assert(has_distro_label(self@, names));
                    assert(!has_two_distro_labels(self@, names));
                    assert(the_distro_label(self@, names) == d0);
                }
                Ok(self.entries[j].in_sync_hold)
            },
        }
    }
}

/// Builds the map of a sequence of records; a later record for a distro
/// overrides an earlier one.
pub fn sync_statuses_to_hashmap(sync_statuses: &Vec<SyncStatus>) -> (r: DistroToSyncStatus)
    ensures
        r.wf(),
        r@ == status_map_of(sync_statuses@),
{
    let mut distro_map = DistroToSyncStatus::new();
    let n = sync_statuses.len();
    let mut i: usize = 0;
    while i < n
        invariant
            n == sync_statuses.len(),
            i <= n,
            distro_map.wf(),
            distro_map@ == status_map_of(sync_statuses@.subrange(0, i as int)),
        decreases n - i,
    {
        let s = &sync_statuses[i];
        distro_map.insert(s.distro.clone(), s.in_sync_hold);
        proof {
            assert(sync_statuses@.subrange(0, i + 1).drop_last() =~= sync_statuses@.subrange(
                0,
                i as int,
            ));
        }
        i = i + 1;
    }
    assert(sync_statuses@.subrange(0, n as int) =~= sync_statuses@);
    distro_map
}

} // verus!
