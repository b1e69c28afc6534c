use copycat::store::{dedup_and_clean, read_strings_from_file, write_strings_to_file, ReadError};

fn strings(xs: &[&str]) -> Vec<String> {
    xs.iter().map(|s| s.to_string()).collect()
}

#[test]
fn clean_trims_and_drops_blank_entries() {
    let cleaned = dedup_and_clean(strings(&["  a  ", "", "   ", "\tb\n", "c"])).unwrap();
    assert_eq!(cleaned, strings(&["a", "b", "c"]));
}

#[test]
fn clean_uses_unicode_whitespace() {
    let cleaned = dedup_and_clean(strings(&["\u{3000}x y\u{a0}", "\u{2028}\u{85}"])).unwrap();
    assert_eq!(cleaned, strings(&["x y"]));
}

#[test]
fn clean_keeps_duplicates_and_order() {
    let cleaned = dedup_and_clean(strings(&["b", "a", "b"])).unwrap();
    assert_eq!(cleaned, strings(&["b", "a", "b"]));
}

#[test]
fn write_lays_out_length_then_bytes() {
    let bytes = write_strings_to_file(&strings(&["ab", " é "]));
    assert_eq!(bytes, vec![2, 0, 0, 0, b'a', b'b', 2, 0, 0, 0, 0xC3, 0xA9]);
}

#[test]
fn write_of_blank_list_is_empty() {
    assert!(write_strings_to_file(&strings(&[" ", ""])).is_empty());
    assert!(write_strings_to_file(&[]).is_empty());
}

#[test]
fn length_field_is_little_endian() {
    let long = "x".repeat(300);
    let bytes = write_strings_to_file(&[long.clone()]);
    assert_eq!(&bytes[..4], &[44, 1, 0, 0]);
    assert_eq!(bytes.len(), 304);
    assert_eq!(read_strings_from_file(&bytes), Ok(vec![long]));
}

#[test]
fn read_after_write_gives_cleaned_list() {
    let xs = strings(&["first", "  second ", "\n", "θρίαμβος", ""]);
    let bytes = write_strings_to_file(&xs);
    assert_eq!(read_strings_from_file(&bytes), Ok(strings(&["first", "second", "θρίαμβος"])));
}

#[test]
fn rewrite_is_stable() {
    let xs = strings(&[" a", "b ", "  "]);
    let bytes = write_strings_to_file(&xs);
    let ys = read_strings_from_file(&bytes).unwrap();
    assert_eq!(write_strings_to_file(&ys), bytes);
}

#[test]
fn new_entry_goes_first() {
    let bytes = write_strings_to_file(&strings(&["old1", "old2"]));
    let mut ys = read_strings_from_file(&bytes).unwrap();
    ys.insert(0, "  new ".to_string());
    let again = read_strings_from_file(&write_strings_to_file(&ys)).unwrap();
    assert_eq!(again, strings(&["new", "old1", "old2"]));
}

#[test]
fn new_entry_goes_last() {
    let bytes = write_strings_to_file(&strings(&["old1", "old2"]));
    let mut ys = read_strings_from_file(&bytes).unwrap();
    ys.push(" new\t".to_string());
    let again = read_strings_from_file(&write_strings_to_file(&ys)).unwrap();
    assert_eq!(again, strings(&["old1", "old2", "new"]));
}

#[test]
fn read_of_empty_store() {
    assert_eq!(read_strings_from_file(&[]), Ok(vec![]));
}

#[test]
fn read_of_empty_entry() {
    assert_eq!(read_strings_from_file(&[0, 0, 0, 0]), Ok(strings(&[""])));
}

#[test]
fn short_zero_field_reads_as_empty_entry() {
    assert_eq!(read_strings_from_file(&[1, 0, 0, 0, b'z', 0]), Ok(strings(&["z", ""])));
}

#[test]
fn short_nonzero_field_is_unexpected_eof() {
    assert_eq!(read_strings_from_file(&[1, 0, 0, 0, b'z', 5]), Err(ReadError::UnexpectedEof));
}

#[test]
fn truncated_entry_is_unexpected_eof() {
    assert_eq!(read_strings_from_file(&[3, 0, 0, 0, b'a', b'b']), Err(ReadError::UnexpectedEof));
}

#[test]
fn invalid_utf8_is_reported() {
    assert_eq!(read_strings_from_file(&[1, 0, 0, 0, 0xFF]), Err(ReadError::InvalidUtf8));
    assert_eq!(read_strings_from_file(&[2, 0, 0, 0, 0xC0, 0x80]), Err(ReadError::InvalidUtf8));
}

#[test]
fn first_error_wins() {
    assert_eq!(
        read_strings_from_file(&[1, 0, 0, 0, 0xFF, 9, 0, 0, 0]),
        Err(ReadError::InvalidUtf8)
    );
}
