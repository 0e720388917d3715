use thunder::text::positions_text;

#[test]
fn positions_are_listed_one_per_line() {
    let text = positions_text(&vec![[0, 0], [-1, 12], [305, -7]]);
    assert_eq!(String::from_utf8(text).unwrap(), "0, 0\n-1, 12\n305, -7");
}

#[test]
fn extreme_coordinates_and_empty_list() {
    let text = positions_text(&vec![[i32::MIN, i32::MAX]]);
    assert_eq!(String::from_utf8(text).unwrap(), "-2147483648, 2147483647");
    assert!(positions_text(&vec![]).is_empty());
}
