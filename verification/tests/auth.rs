use durable::auth::{
    cookie_value, form_decode, hash_password, is_authed, login_html, parse_form_password, required,
    set_cookie_header, token, verify_password, COOKIE,
};

#[test]
fn hash_is_stable_and_not_plaintext() {
    let a = hash_password("secret");
    let b = hash_password("secret");
    assert_eq!(a, b);
    assert_ne!(a, "secret");
    assert_eq!(a.len(), 64);
    assert!(a.chars().all(|c| c.is_ascii_hexdigit()));
}

#[test]
fn cookie_roundtrip() {
    let h = format!("{}=abc123; hop_user=u1", COOKIE);
    assert_eq!(cookie_value(&h).as_deref(), Some("abc123"));
    assert!(cookie_value("hop_user=u1").is_none());
    assert_eq!(cookie_value("a; hop_auth= ; hop_auth=x=y ").as_deref(), Some("x=y"));
}

#[test]
fn form_password_decodes() {
    assert_eq!(parse_form_password("password=hello%20there"), Some("hello there".to_string()));
    assert_eq!(parse_form_password("user=a&password=a%2Bb+c"), Some("a+b c".to_string()));
    assert_eq!(parse_form_password("pass=x"), None);
    assert_eq!(form_decode("100%"), "100%");
    assert_eq!(form_decode("%zz%4"), "%zz%4");
    assert_eq!(form_decode("%ff"), "\u{fffd}");
}

#[test]
fn the_guard_lets_its_cookie_through() {
    let open = token(None, Some(""));
    assert!(!required(&open));
    assert!(is_authed(&open, None));
    assert!(!verify_password(&open, "secret"));
    assert!(set_cookie_header(&open, true).is_none());

    let shut = token(Some(""), Some("secret"));
    assert!(required(&shut));
    assert!(!is_authed(&shut, None));
    assert!(!is_authed(&shut, Some("hop_auth=secret")));
    assert!(verify_password(&shut, "secret"));
    assert!(!verify_password(&shut, "wrong"));
    let header = set_cookie_header(&shut, false).unwrap();
    assert!(header.ends_with("; Path=/; HttpOnly; SameSite=Lax; Max-Age=2592000"));
    assert!(is_authed(&shut, Some(&header)));
    assert!(set_cookie_header(&shut, true).unwrap().ends_with("; Secure"));
}

#[test]
fn login_page_names_title_and_error() {
    let page = login_html(None, Some("wrong password"));
    assert!(page.starts_with("<!doctype html>"));
    assert!(page.contains("<h1>hop</h1>"));
    assert!(page.contains("<p class=\"err\">wrong password</p>"));
    assert!(login_html(Some("mine"), None).contains("<title>mine \u{2014} login</title>"));
}

#[test]
fn white_space_around_a_cookie_is_dropped() {
    assert_eq!(cookie_value("\u{3000}hop_auth=x\u{2009}\u{85}").as_deref(), Some("x"));
    assert_eq!(cookie_value("a=b;\t\u{a0}hop_auth=x\r\n").as_deref(), Some("x"));
    assert_eq!(cookie_value("\u{200b}hop_auth=x"), None);
    let shut = token(Some("secret"), None);
    let header = set_cookie_header(&shut, true).unwrap();
    assert!(is_authed(&shut, Some(&header)));
}

#[test]
fn a_password_of_a_form_is_its_text() {
    assert_eq!(parse_form_password("a=1&password=h%C3%A9+x%26").as_deref(), Some("hé x&"));
    assert_eq!(parse_form_password("password=&password=b").as_deref(), Some(""));
    assert_eq!(parse_form_password("Password=b"), None);
}
