use srtresync::text::SepKind;
use srtresync::text::num_to_string;
use srtresync::text::split_on_sep;
use srtresync::text::trim;

#[test]
fn split_keeps_empty_chunks() {
    assert_eq!(split_on_sep("a,b", SepKind::SubSec), vec!["a", "b"]);
    assert_eq!(split_on_sep("", SepKind::Colon), vec![""]);
    assert_eq!(split_on_sep("a,,", SepKind::SubSec), vec!["a", "", ""]);
    assert_eq!(split_on_sep(":x:", SepKind::Colon), vec!["", "x", ""]);
    assert_eq!(split_on_sep("1.5", SepKind::SubSec), vec!["1", "5"]);
    assert_eq!(split_on_sep("a-b-c", SepKind::Dash), vec!["a", "b", "c"]);
}

#[test]
fn trim_removes_surrounding_whitespace() {
    assert_eq!(trim("  a b \t"), "a b");
    assert_eq!(trim("\r\n"), "");
    assert_eq!(trim("x"), "x");
    assert_eq!(trim(""), "");
}

#[test]
fn numbers_render_in_decimal() {
    assert_eq!(num_to_string(0), "0");
    assert_eq!(num_to_string(7), "7");
    assert_eq!(num_to_string(1234), "1234");
}
