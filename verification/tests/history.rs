use copycat::history::{add_saved, cap_recent, pick_entry, record_copy, remove_saved, RECENT_CAP};

fn strings(xs: &[&str]) -> Vec<String> {
    xs.iter().map(|s| s.to_string()).collect()
}

#[test]
fn cap_keeps_newest() {
    let mut h: Vec<String> = (0..35).map(|i| i.to_string()).collect();
    cap_recent(&mut h);
    assert_eq!(h.len(), RECENT_CAP);
    assert_eq!(h[0], "0");
    assert_eq!(h[29], "29");
}

#[test]
fn cap_leaves_short_history() {
    let mut h = strings(&["a", "b"]);
    cap_recent(&mut h);
    assert_eq!(h, strings(&["a", "b"]));
}

#[test]
fn copy_goes_in_front() {
    let mut h = strings(&["a", "b"]);
    record_copy(&mut h, "c".to_string());
    assert_eq!(h, strings(&["c", "a", "b"]));
}

#[test]
fn pick_trims_for_clipboard_and_repeats_entry() {
    let values = strings(&["x", "  y \n", "z"]);
    let (clip, updated) = pick_entry(&values, 1);
    assert_eq!(clip, "y");
    assert_eq!(updated, strings(&["  y \n", "x", "  y \n", "z"]));
}

#[test]
fn remove_saved_drops_pair() {
    let mut labels = strings(&["l0", "l1", "l2"]);
    let mut values = strings(&["v0", "v1", "v2"]);
    remove_saved(&mut labels, &mut values, 1);
    assert_eq!(labels, strings(&["l0", "l2"]));
    assert_eq!(values, strings(&["v0", "v2"]));
}

#[test]
fn add_saved_appends_pair() {
    let mut labels = strings(&["l0"]);
    let mut values = strings(&["v0"]);
    add_saved(&mut labels, &mut values, "l1".to_string(), "v1".to_string());
    assert_eq!(labels, strings(&["l0", "l1"]));
    assert_eq!(values, strings(&["v0", "v1"]));
}
