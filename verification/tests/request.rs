use bitmap_renderer::request::parse_height;

fn parse(s: &str) -> Option<u64> {
    parse_height(&s.as_bytes().to_vec())
}

#[test]
fn height_from_png_name() {
    assert_eq!(parse("840000.png"), Some(840000));
    assert_eq!(parse("0.png"), Some(0));
    assert_eq!(parse("2"), Some(2));
}

#[test]
fn every_trailing_png_is_dropped() {
    assert_eq!(parse("12.png.png"), Some(12));
    assert_eq!(parse(".png"), None);
    assert_eq!(parse("12.PNG"), None);
}

#[test]
fn sign_and_bad_digits() {
    assert_eq!(parse("+7.png"), Some(7));
    assert_eq!(parse("+"), None);
    assert_eq!(parse("-1"), None);
    assert_eq!(parse(""), None);
    assert_eq!(parse("12a.png"), None);
    assert_eq!(parse(" 12"), None);
}

#[test]
fn heights_beyond_u64_are_refused() {
    assert_eq!(parse("18446744073709551615.png"), Some(u64::MAX));
    assert_eq!(parse("18446744073709551616.png"), None);
    assert_eq!(parse("99999999999999999999"), None);
}

#[test]
fn same_as_std_parse() {
    for s in ["1", "007", "+0", "++1", "1+", "1.png5", "5.png", "abc", "1 ", "00000000000000000000000001"] {
        let expected = s.trim_end_matches(".png").parse::<u64>().ok();
        assert_eq!(parse(s), expected, "{s}");
    }
}
