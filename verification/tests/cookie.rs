use stadhouder::cookie::has_cookie;

#[test]
fn finds_a_cookie_among_several() {
    assert!(has_cookie(Some("a=1; keyscarf_session=abc; b=2"), "keyscarf_session"));
}

#[test]
fn missing_header_is_false() {
    assert!(!has_cookie(None, "keyscarf_session"));
}

#[test]
fn absent_cookie_is_false() {
    assert!(!has_cookie(Some("a=1; b=2"), "keyscarf_session"));
}

#[test]
fn tolerates_no_leading_space() {
    assert!(has_cookie(Some("keyscarf_session=abc;b=2"), "keyscarf_session"));
}

#[test]
fn name_must_match_exactly_not_as_a_substring() {
    assert!(!has_cookie(Some("keyscarf_session_extra=abc"), "keyscarf_session"));
    assert!(!has_cookie(Some("extra_keyscarf_session=abc"), "keyscarf_session"));
}

#[test]
fn a_bare_token_with_no_equals_is_not_matched() {
    assert!(!has_cookie(Some("keyscarf_session"), "keyscarf_session"));
}

#[test]
fn the_value_of_a_cookie_does_not_matter() {
    assert!(has_cookie(Some("s="), "s"));
    assert!(has_cookie(Some("s=a=b"), "s"));
    assert!(has_cookie(Some("x=s; s=\u{e9}"), "s"));
    assert!(!has_cookie(Some("x=s=1"), "s"));
}
