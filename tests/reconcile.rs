use sync_hold_labeler::{
    contains_label, reconcile_labels, sync_status_url, sync_statuses_to_hashmap,
    DistroToSyncStatus, ReconcileError, SyncStatus, SYNC_HOLD_LABEL,
};

fn strings(names: &[&str]) -> Vec<String> {
    names.iter().map(|s| s.to_string()).collect()
}

fn focal_jammy() -> DistroToSyncStatus {
    let mut m = DistroToSyncStatus::new();
    m.insert("focal".to_string(), true);
    m.insert("jammy".to_string(), false);
    m
}

fn record(distro: &str, in_sync_hold: bool) -> SyncStatus {
    SyncStatus { distro: distro.to_string(), in_sync_hold }
}

#[test]
fn held_distro_without_label_gets_it() {
    let m = focal_jammy();
    let r = reconcile_labels(&m, &strings(&["focal"]), SYNC_HOLD_LABEL);
    assert_eq!(r, Ok(Some(strings(&["focal", "in_sync_hold"]))));
}

#[test]
fn held_distro_with_label_is_unchanged() {
    let m = focal_jammy();
    let r = reconcile_labels(&m, &strings(&["focal", "in_sync_hold"]), SYNC_HOLD_LABEL);
    assert_eq!(r, Ok(None));
}

#[test]
fn released_distro_with_label_loses_it() {
    let m = focal_jammy();
    let r = reconcile_labels(&m, &strings(&["jammy", "in_sync_hold"]), SYNC_HOLD_LABEL);
    assert_eq!(r, Ok(Some(strings(&["jammy"]))));
}

#[test]
fn released_distro_without_label_is_unchanged() {
    let m = focal_jammy();
    let r = reconcile_labels(&m, &strings(&["jammy"]), SYNC_HOLD_LABEL);
    assert_eq!(r, Ok(None));
}

#[test]
fn removal_keeps_other_labels_in_order() {
    let m = focal_jammy();
    let labels = strings(&["bug", "in_sync_hold", "jammy", "in_sync_hold", "docs"]);
    let r = reconcile_labels(&m, &labels, SYNC_HOLD_LABEL);
    assert_eq!(r, Ok(Some(strings(&["bug", "jammy", "docs"]))));
}

#[test]
fn duplicate_distro_label_counts_once() {
    let m = focal_jammy();
    let r = reconcile_labels(&m, &strings(&["focal", "focal"]), SYNC_HOLD_LABEL);
    assert_eq!(r, Ok(Some(strings(&["focal", "focal", "in_sync_hold"]))));
}

#[test]
fn two_distro_labels_are_refused() {
    let m = focal_jammy();
    let r = reconcile_labels(&m, &strings(&["focal", "jammy"]), SYNC_HOLD_LABEL);
    assert_eq!(r, Err(ReconcileError::AmbiguousDistroLabel));
    let r = reconcile_labels(&m, &strings(&["jammy", "in_sync_hold", "focal"]), SYNC_HOLD_LABEL);
    assert_eq!(r, Err(ReconcileError::AmbiguousDistroLabel));
}

#[test]
fn no_distro_label_is_refused() {
    let m = focal_jammy();
    let r = reconcile_labels(&m, &strings(&["bug", "in_sync_hold"]), SYNC_HOLD_LABEL);
    assert_eq!(r, Err(ReconcileError::MissingDistroLabel));
    let r = reconcile_labels(&m, &Vec::new(), SYNC_HOLD_LABEL);
    assert_eq!(r, Err(ReconcileError::MissingDistroLabel));
}

#[test]
fn empty_status_map_refuses_every_issue() {
    let m = DistroToSyncStatus::new();
    let r = reconcile_labels(&m, &strings(&["focal"]), SYNC_HOLD_LABEL);
    assert_eq!(r, Err(ReconcileError::MissingDistroLabel));
}

#[test]
fn second_run_changes_nothing() {
    let m = focal_jammy();
    for labels in [
        strings(&["focal"]),
        strings(&["focal", "in_sync_hold"]),
        strings(&["jammy", "in_sync_hold"]),
        strings(&["in_sync_hold", "jammy", "in_sync_hold"]),
        strings(&["jammy"]),
    ] {
        let first = reconcile_labels(&m, &labels, SYNC_HOLD_LABEL).unwrap();
        let after = first.unwrap_or(labels);
        assert_eq!(reconcile_labels(&m, &after, SYNC_HOLD_LABEL), Ok(None));
    }
}

#[test]
fn other_hold_label_name_is_used() {
    let m = focal_jammy();
    let r = reconcile_labels(&m, &strings(&["focal", "in_sync_hold"]), "frozen");
    assert_eq!(r, Ok(Some(strings(&["focal", "in_sync_hold", "frozen"]))));
}

#[test]
fn later_record_wins() {
    let m = sync_statuses_to_hashmap(&vec![record("a", true), record("a", false)]);
    assert_eq!(m.get("a"), Some(false));
    let m = sync_statuses_to_hashmap(&vec![record("a", false), record("a", true)]);
    assert_eq!(m.get("a"), Some(true));
}

#[test]
fn records_build_the_map() {
    let m = sync_statuses_to_hashmap(&vec![
        record("focal", true),
        record("jammy", false),
        record("noble", true),
    ]);
    assert_eq!(m.get("focal"), Some(true));
    assert_eq!(m.get("jammy"), Some(false));
    assert_eq!(m.get("noble"), Some(true));
    assert_eq!(m.get("bionic"), None);
    let r = reconcile_labels(&m, &strings(&["noble"]), SYNC_HOLD_LABEL);
    assert_eq!(r, Ok(Some(strings(&["noble", "in_sync_hold"]))));
}

#[test]
fn no_records_give_an_empty_map() {
    let m = sync_statuses_to_hashmap(&Vec::new());
    assert_eq!(m.get("focal"), None);
}

#[test]
fn insert_replaces_a_status() {
    let mut m = focal_jammy();
    m.insert("focal".to_string(), false);
    assert_eq!(m.get("focal"), Some(false));
    assert_eq!(m.get("jammy"), Some(false));
}

#[test]
fn label_membership() {
    let labels = strings(&["focal", "bug"]);
    assert!(contains_label(&labels, &"bug".to_string()));
    assert!(!contains_label(&labels, &"bu".to_string()));
    assert!(!contains_label(&Vec::new(), &"bug".to_string()));
}

#[test]
fn status_url_joins_segments() {
    let url = sync_status_url("ros", "rosdistro", "master", "sync/status.yaml");
    assert_eq!(url, "https://raw.githubusercontent.com/ros/rosdistro/master/sync/status.yaml");
}
