use copycat::menu::{entry_caption, group_title, menu_groups};
use copycat::text::decimal_string;

#[test]
fn one_group_up_to_fifteen() {
    assert_eq!(menu_groups(0), vec![(0, 0)]);
    assert_eq!(menu_groups(15), vec![(0, 15)]);
}

#[test]
fn two_groups_past_fifteen() {
    assert_eq!(menu_groups(16), vec![(0, 15), (15, 16)]);
    assert_eq!(menu_groups(30), vec![(0, 15), (15, 30)]);
}

#[test]
fn group_titles() {
    assert_eq!(group_title(0, 15), "1-15");
    assert_eq!(group_title(15, 30), "16-30");
    assert_eq!(group_title(0, 0), "1-0");
}

#[test]
fn caption_of_short_label() {
    assert_eq!(entry_caption(0, "hello"), "1: hello");
    assert_eq!(entry_caption(11, ""), "12: ");
}

#[test]
fn caption_of_long_ascii_label() {
    let label = "abcdefghij".repeat(4);
    assert_eq!(entry_caption(2, &label), format!("3: {}...", &label[..30]));
}

#[test]
fn caption_of_thirty_ascii_chars_gets_dots() {
    let label = "a".repeat(30);
    assert_eq!(entry_caption(0, &label), format!("1: {}...", label));
}

#[test]
fn caption_of_long_non_ascii_label_has_no_dots() {
    let label = "é".repeat(40);
    assert_eq!(entry_caption(0, &label), format!("1: {}", "é".repeat(30)));
}

#[test]
fn decimal_rendering() {
    assert_eq!(decimal_string(0), "0");
    assert_eq!(decimal_string(7), "7");
    assert_eq!(decimal_string(10), "10");
    assert_eq!(decimal_string(4096), "4096");
    assert_eq!(decimal_string(usize::MAX), usize::MAX.to_string());
}
