use copycat::monitor::{dismiss_on_click, monitor_tick, open_shortcut_held, Key};

#[test]
fn shortcut_needs_all_three_keys() {
    assert!(open_shortcut_held(&[Key::V, Key::LShift, Key::Meta]));
    assert!(open_shortcut_held(&[Key::Other, Key::Meta, Key::LShift, Key::V]));
    assert!(!open_shortcut_held(&[Key::Meta, Key::V]));
    assert!(!open_shortcut_held(&[]));
}

#[test]
fn tick_opens_what_was_asked() {
    let a = monitor_tick(true, &[Key::Other]);
    assert!(a.open_edit && !a.open_menu);
    let b = monitor_tick(false, &[Key::Meta, Key::LShift, Key::V]);
    assert!(!b.open_edit && b.open_menu);
}

#[test]
fn click_outside_dismisses() {
    assert!(dismiss_on_click(&[false, true, false], false, false));
    assert!(!dismiss_on_click(&[false, true], true, false));
    assert!(!dismiss_on_click(&[false, true], false, true));
    assert!(!dismiss_on_click(&[true, false], false, false));
}
