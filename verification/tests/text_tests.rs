use lib::text::{slice_text, try_slice_text};

#[test]
fn text_slice_ascii_range() {
    assert_eq!(slice_text("{+ 1 2}", 3, 4), "1");
    assert_eq!(try_slice_text("{+ 1 2}", 3, 7).unwrap(), "1 2}");
    assert_eq!(try_slice_text("abc", 1, 1).unwrap(), "");
}

#[test]
fn text_slice_whole_text() {
    assert_eq!(try_slice_text("héllo", 0, 6).unwrap(), "héllo");
}

#[test]
fn text_slice_counts_bytes() {
    assert_eq!(try_slice_text("héllo", 1, 3).unwrap(), "é");
    assert_eq!(try_slice_text("héllo", 3, 6).unwrap(), "llo");
}

#[test]
fn text_slice_refuses_cut_inside_character() {
    assert!(try_slice_text("héllo", 1, 2).is_none());
    assert!(try_slice_text("héllo", 2, 4).is_none());
}

#[test]
fn text_slice_refuses_reversed_or_long_range() {
    assert!(try_slice_text("abc", 2, 1).is_none());
    assert!(try_slice_text("abc", 0, 4).is_none());
}
