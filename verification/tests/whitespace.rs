use construct_core::text::is_white;

#[test]
fn white_space_is_exactly_what_std_reports() {
    for c in (0u32..=0x10ffff).filter_map(char::from_u32) {
        assert_eq!(is_white(c), c.is_whitespace(), "{:?}", c);
    }
}
