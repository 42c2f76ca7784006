use mdsummary::Summary;

#[test]
fn offset_zero_is_line_zero_column_zero() {
    let s = Summary::new("abc");
    assert_eq!(s.to_linecol(0), (0, 0));
}

#[test]
fn offset_at_line_boundary_starts_next_line() {
    let s = Summary::new("ab\ncd");
    assert_eq!(s.to_linecol(3), (1, 0));
    assert_eq!(s.to_linecol(2), (0, 2));
    assert_eq!(s.to_linecol(4), (1, 1));
}

#[test]
fn offset_past_every_line_maps_to_line_count() {
    let s = Summary::new("a\nb");
    assert_eq!(s.to_linecol(100), (2, 0));
}

#[test]
fn empty_input_maps_to_origin() {
    let s = Summary::new("");
    assert_eq!(s.to_linecol(0), (0, 0));
}

#[test]
fn multibyte_line_lengths_are_bytes() {
    let s = Summary::new("\u{e9}\nx");
    assert_eq!(s.to_linecol(0), (0, 0));
    assert_eq!(s.to_linecol(1), (0, 1));
    assert_eq!(s.to_linecol(3), (1, 0));
}

#[test]
fn carriage_return_is_not_counted_in_the_line() {
    // A "\r\n" terminator advances the walk by one byte, not two: columns on
    // later lines sit one short of the raw byte distance.
    let s = Summary::new("ab\r\ncd");
    assert_eq!(s.to_linecol(4), (1, 1));
    assert_eq!(s.to_linecol(3), (1, 0));
}

#[test]
fn diagnostic_offset_renders_to_its_line() {
    let mut s = Summary::new("[A](b)\n[B]x\n");
    assert!(s.parse().is_none());
    assert_eq!(s.errors.len(), 1);
    let off = s.errors[0].byte;
    assert_eq!(off, 10);
    assert_eq!(s.to_linecol(off), (1, 3));
}
