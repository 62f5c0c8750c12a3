use crate::status::DistroToSyncStatus;
use vstd::prelude::*;

verus! {

/// The label that marks an issue whose distro is in a sync hold.
pub const SYNC_HOLD_LABEL: &'static str = "in_sync_hold";

/// Why no label decision could be made for an issue.
#[derive(Debug, Clone, Copy, PartialEq, Eq, Structural)]
pub enum ReconcileError {
    /// None of the issue's labels names a known distro.
    MissingDistroLabel,
    /// The issue's labels name more than one known distro.
    AmbiguousDistroLabel,
}

/// The names of a list of labels.
pub open spec fn label_names(labels: Seq<String>) -> Seq<Seq<char>> {
    labels.map_values(|l: String| l@)
}

/// `d` is a known distro and one of the labels.
pub open spec fn is_distro_label(
    status: Map<Seq<char>, bool>,
    labels: Seq<Seq<char>>,
    d: Seq<char>,
) -> bool {
    status.contains_key(d) && labels.contains(d)
}

pub open spec fn has_distro_label(status: Map<Seq<char>, bool>, labels: Seq<Seq<char>>) -> bool {
    exists|d: Seq<char>| is_distro_label(status, labels, d)
}

pub open spec fn has_two_distro_labels(
    status: Map<Seq<char>, bool>,
    labels: Seq<Seq<char>>,
) -> bool {
    exists|d1: Seq<char>, d2: Seq<char>|
        d1 != d2 && is_distro_label(status, labels, d1) && is_distro_label(status, labels, d2)
}

/// The distro that the labels name, where they name exactly one.
pub open spec fn the_distro_label(status: Map<Seq<char>, bool>, labels: Seq<Seq<char>>) -> Seq<
    char,
> {
    choose|d: Seq<char>| is_distro_label(status, labels, d)
}

/// Whether the one distro that the labels name is in a sync hold.
pub open spec fn distro_hold_of(status: Map<Seq<char>, bool>, labels: Seq<Seq<char>>) -> Result<
    bool,
    ReconcileError,
> {
    if !has_distro_label(status, labels) {
        Err(ReconcileError::MissingDistroLabel)
    } else if has_two_distro_labels(status, labels) {
        Err(ReconcileError::AmbiguousDistroLabel)
    } else {
        Ok(status[the_distro_label(status, labels)])
    }
}

/// The labels with every occurrence of `name` taken out, order kept.
pub open spec fn without_label(labels: Seq<Seq<char>>, name: Seq<char>) -> Seq<Seq<char>>
    decreases labels.len(),
{
    if labels.len() == 0 {
        labels
    } else {
        let rest = without_label(labels.drop_last(), name);
        if labels.last() == name {
            rest
        } else {
            rest.push(labels.last())
        }
    }
}

/// The labels after the hold label is put on (`hold`) or taken off.
pub open spec fn relabeled(labels: Seq<Seq<char>>, hold_label: Seq<char>, hold: bool) -> Seq<
    Seq<char>,
> {
    if hold {
        labels.push(hold_label)
    } else {
        without_label(labels, hold_label)
    }
}

/// What reconciling one issue's labels yields: `None` where the hold label
/// already matches the distro's status, else the new label list.
pub open spec fn reconciled(
    status: Map<Seq<char>, bool>,
    labels: Seq<Seq<char>>,
    hold_label: Seq<char>,
) -> Result<Option<Seq<Seq<char>>>, ReconcileError> {
    match distro_hold_of(status, labels) {
        Err(e) => Err(e),
        Ok(hold) => if hold == labels.contains(hold_label) {
            Ok(None)
        } else {
            Ok(Some(relabeled(labels, hold_label, hold)))
        },
    }
}

/// The labels an issue carries once a reconciliation outcome is applied.
pub open spec fn labels_after(labels: Seq<Seq<char>>, update: Option<Seq<Seq<char>>>) -> Seq<
    Seq<char>,
> {
    match update {
        None => labels,
        Some(l) => l,
    }
}

/// The names that an executable reconciliation outcome carries.
pub open spec fn outcome_view(r: Result<Option<Vec<String>>, ReconcileError>) -> Result<
    Option<Seq<Seq<char>>>,
    ReconcileError,
> {
    match r {
        Err(e) => Err(e),
        Ok(None) => Ok(None),
        Ok(Some(v)) => Ok(Some(label_names(v@))),
    }
}

/// A label is left by `without_label` exactly when it is not `name`.
pub proof fn lemma_without_label_contains(labels: Seq<Seq<char>>, name: Seq<char>, x: Seq<char>)
    ensures
        without_label(labels, name).contains(x) <==> (labels.contains(x) && x != name),
    decreases labels.len(),
{
    if labels.len() > 0 {
        let init = labels.drop_last();
        let last = labels.last();
        lemma_without_label_contains(init, name, x);
        let rest = without_label(init, name);
        let w = without_label(labels, name);
        if w.contains(x) {
            let i = choose|i: int| 0 <= i < w.len() && w[i] == x;
            if i < rest.len() {
                assert(rest[i] == x);
                assert(rest.contains(x));
                let k = choose|k: int| 0 <= k < init.len() && init[k] == x;
                assert(labels[k] == x);
            } else {
                assert(last != name && w == rest.push(last));
                assert(labels[labels.len() - 1] == x);
            }
        }
        if labels.contains(x) && x != name {
            let i = choose|i: int| 0 <= i < labels.len() && labels[i] == x;
            if i < labels.len() - 1 {
                assert(init[i] == x);
                assert(init.contains(x));
                let k = choose|k: int| 0 <= k < rest.len() && rest[k] == x;
                if last != name {
                    assert(w[k] == x);
                }
            } else {
                assert(w == rest.push(x));
                assert(w[rest.len() as int] == x);
            }
        }
    }
}

/// Whether `name` is among the labels.
pub fn contains_label(labels: &Vec<String>, name: &String) -> (r: bool)
    ensures
        r == label_names(labels@).contains(name@),
{
    let n = labels.len();
    let mut i: usize = 0;
    while i < n
        invariant
            n == labels.len(),
            i <= n,
            forall|j: int| 0 <= j < i ==> labels@[j]@ != name@,
        decreases n - i,
    {
        if labels[i] == *name {
            assert(label_names(labels@)[i as int] == name@);
            return true;
        }
        i = i + 1;
    }
    assert forall|j: int| 0 <= j < n implies label_names(labels@)[j] != name@ by {
        assert(label_names(labels@)[j] == labels@[j]@);
    }
    false
}

/// A copy of the labels with every occurrence of `name` taken out.
fn remove_label(labels: &Vec<String>, name: &String) -> (r: Vec<String>)
    ensures
        label_names(r@) == without_label(label_names(labels@), name@),
{
    let ghost names = label_names(labels@);
    let mut out: Vec<String> = Vec::new();
    let n = labels.len();
    let mut i: usize = 0;
    while i < n
        invariant
            n == labels.len(),
            i <= n,
            names == label_names(labels@),
            label_names(out@) == without_label(names.subrange(0, i as int), name@),
        decreases n - i,
    {
        let ghost before = out@;
        proof {
            assert(names.subrange(0, i + 1).drop_last() =~= names.subrange(0, i as int));
            assert(names.subrange(0, i + 1).last() == labels@[i as int]@);
        }
        if labels[i] != *name {
            out.push(labels[i].clone());
            assert(label_names(out@) =~= label_names(before).push(labels@[i as int]@));
        }
        i = i + 1;
    }
    assert(names.subrange(0, n as int) =~= names);
    out
}

/// A copy of the labels with `name` put on at the end.
fn add_label(labels: &Vec<String>, name: String) -> (r: Vec<String>)
    ensures
        label_names(r@) == label_names(labels@).push(name@),
{
    let mut out: Vec<String> = Vec::new();
    let n = labels.len();
    let mut i: usize = 0;
    while i < n
        invariant
            n == labels.len(),
            i <= n,
            label_names(out@) == label_names(labels@).subrange(0, i as int),
        decreases n - i,
    {
        let ghost before = out@;
        out.push(labels[i].clone());
        assert(label_names(out@) =~= label_names(before).push(labels@[i as int]@));
        assert(label_names(out@) =~= label_names(labels@).subrange(0, i + 1));
        i = i + 1;
    }
    let ghost copied = out@;
    out.push(name);
    assert(label_names(out@) =~= label_names(copied).push(name@));
    assert(label_names(copied) =~= label_names(labels@));
    out
}

/// Decides what an issue's labels should become: `Ok(None)` where its
/// distro's hold status already matches whether `hold_label` is on it, else
/// the new label list, with `hold_label` added at the end or every
/// occurrence of it removed. An issue must name exactly one known distro.
pub fn reconcile_labels(
    status: &DistroToSyncStatus,
    labels: &Vec<String>,
    hold_label: &str,
) -> (r: Result<Option<Vec<String>>, ReconcileError>)
    requires
        status.wf(),
    ensures
        outcome_view(r) == reconciled(status@, label_names(labels@), hold_label@),
{
    let hold = match status.distro_hold(labels) {
        Ok(h) => h,
        Err(e) => {
            return Err(e);
        },
    };
    let name: String = hold_label.to_owned();
    let labeled = contains_label(labels, &name);
    if hold == labeled {
        Ok(None)
    } else if hold {
        Ok(Some(add_label(labels, name)))
    } else {
        Ok(Some(remove_label(labels, &name)))
    }
}

/// Where the labels name exactly one known distro, reconciling succeeds, and
/// afterwards the hold label is on the issue exactly when that distro is in a
/// sync hold.
pub proof fn lemma_hold_label_follows_status(
    status: Map<Seq<char>, bool>,
    labels: Seq<Seq<char>>,
    hold_label: Seq<char>,
)
    requires
        has_distro_label(status, labels),
        !has_two_distro_labels(status, labels),
    ensures
        reconciled(status, labels, hold_label) is Ok,
        labels_after(labels, reconciled(status, labels, hold_label)->Ok_0).contains(hold_label)
            <==> status[the_distro_label(status, labels)],
{
    let hold = status[the_distro_label(status, labels)];
    if hold != labels.contains(hold_label) {
        if hold {
            let after = labels.push(hold_label);
            assert(after[labels.len() as int] == hold_label);
        } else {
            lemma_without_label_contains(labels, hold_label, hold_label);
        }
    }
}

/// Reconciling the labels that a first reconciliation left changes nothing,
/// provided the hold label is not itself a distro.
pub proof fn lemma_reconcile_idempotent(
    status: Map<Seq<char>, bool>,
    labels: Seq<Seq<char>>,
    hold_label: Seq<char>,
)
    requires
        !status.contains_key(hold_label),
        reconciled(status, labels, hold_label) is Ok,
    ensures
        reconciled(
            status,
            labels_after(labels, reconciled(status, labels, hold_label)->Ok_0),
            hold_label,
        ) == Ok::<Option<Seq<Seq<char>>>, ReconcileError>(None),
{
    let d = the_distro_label(status, labels);
    let hold = status[d];
    let after = labels_after(labels, reconciled(status, labels, hold_label)->Ok_0);
    assert forall|x: Seq<char>| status.contains_key(x) implies (after.contains(x)
        <==> labels.contains(x)) by {
        if hold != labels.contains(hold_label) {
            if hold {
                let a = labels.push(hold_label);
                if labels.contains(x) {
                    let i = choose|i: int| 0 <= i < labels.len() && labels[i] == x;
                    assert(a[i] == x);
                }
                if a.contains(x) {
                    let i = choose|i: int| 0 <= i < a.len() && a[i] == x;
                    assert(i < labels.len());
                    assert(labels[i] == x);
                }
            } else {
                lemma_without_label_contains(labels, hold_label, x);
            }
        }
    }
    assert(is_distro_label(status, after, d));
    assert forall|x: Seq<char>| is_distro_label(status, after, x) implies x == d by {
        assert(is_distro_label(status, labels, x));
    }
    assert(!has_two_distro_labels(status, after));
    let d2 = the_distro_label(status, after);
    assert(d2 == d);
    lemma_hold_label_follows_status(status, labels, hold_label);
}

/// Labels that already agree with their distro's status are left alone.
pub proof fn lemma_matching_labels_unchanged(
    status: Map<Seq<char>, bool>,
    labels: Seq<Seq<char>>,
    hold_label: Seq<char>,
)
    requires
        distro_hold_of(status, labels) == Ok::<bool, ReconcileError>(
            labels.contains(hold_label),
        ),
    ensures
        reconciled(status, labels, hold_label) == Ok::<Option<Seq<Seq<char>>>, ReconcileError>(
            None,
        ),
{
}

/// An issue that names no known distro is refused, never skipped.
pub proof fn lemma_missing_distro_refused(
    status: Map<Seq<char>, bool>,
    labels: Seq<Seq<char>>,
    hold_label: Seq<char>,
)
    requires
        forall|k: Seq<char>| status.contains_key(k) ==> !labels.contains(k),
    ensures
        reconciled(status, labels, hold_label) == Err::<Option<Seq<Seq<char>>>, ReconcileError>(
            ReconcileError::MissingDistroLabel,
        ),
{
}

/// An issue that names two known distros is refused; neither is picked.
pub proof fn lemma_ambiguous_distro_refused(
    status: Map<Seq<char>, bool>,
    labels: Seq<Seq<char>>,
    hold_label: Seq<char>,
    d1: Seq<char>,
    d2: Seq<char>,
)
    requires
        d1 != d2,
        status.contains_key(d1),
        status.contains_key(d2),
        labels.contains(d1),
        labels.contains(d2),
    ensures
        reconciled(status, labels, hold_label) == Err::<Option<Seq<Seq<char>>>, ReconcileError>(
            ReconcileError::AmbiguousDistroLabel,
        ),
{
    assert(is_distro_label(status, labels, d1));
    assert(is_distro_label(status, labels, d2));
}

} // verus!
