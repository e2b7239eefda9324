use cargo_lockdiff::urlencode::urlencode;

#[test]
fn unreserved_characters_pass_through() {
    let s = "ABCXYZabcxyz0189-_.~";
    assert_eq!(urlencode(s), s);
}

#[test]
fn empty_string_stays_empty() {
    assert_eq!(urlencode(""), "");
}

#[test]
fn space_is_percent_encoded() {
    assert_eq!(urlencode("a b"), "a%20b");
}

#[test]
fn reserved_ascii_is_percent_encoded_uppercase() {
    assert_eq!(urlencode("v1/2"), "v1%2F2");
    assert_eq!(urlencode("a:b"), "a%3Ab");
    assert_eq!(urlencode("x+y"), "x%2By");
    assert_eq!(urlencode("1.0.0"), "1.0.0");
}

#[test]
fn multibyte_characters_encode_each_utf8_byte() {
    assert_eq!(urlencode("\u{e9}"), "%C3%A9");
    assert_eq!(urlencode("\u{20ac}"), "%E2%82%AC");
    assert_eq!(urlencode("\u{1f600}"), "%F0%9F%98%80");
}

#[test]
fn control_characters_get_two_digits() {
    assert_eq!(urlencode("\n"), "%0A");
}
