use yaak_grpc::escape::check_escapes;
use yaak_grpc::text::{append_decimal, rsplit_once};

fn decimal(n: i32) -> String {
    let mut text = String::new();
    append_decimal(&mut text, n);
    text
}

#[test]
fn numbers_in_decimal() {
    for n in [0, 7, 10, 42, 305, -1, -10, 1234567890, i32::MAX, i32::MIN] {
        assert_eq!(decimal(n), n.to_string());
    }
}

#[test]
fn a_number_is_appended() {
    let mut text = "status ".to_string();
    append_decimal(&mut text, 12);
    assert_eq!(text, "status 12");
}

#[test]
fn splitting_at_the_last_one() {
    let split = |text: &str| rsplit_once(text, '/');
    assert_eq!(split("a/b/c"), Some(("a/b".to_string(), "c".to_string())));
    assert_eq!(split("/"), Some((String::new(), String::new())));
    assert_eq!(split("é/ü"), Some(("é".to_string(), "ü".to_string())));
    assert_eq!(split("abc"), None);
    assert_eq!(split(""), None);
}

#[test]
fn escapes_are_read_up_to_the_first_that_is_none() {
    for text in ["", "plain", "\\n\\t\\\\\\\"", "\\0\\7\\377", "\\x41\\XfF", "\\q\\777", "\\"] {
        assert!(check_escapes(text), "{text}");
    }
    for text in ["\\400", "a\\777", "\\x1é", "\\X€", "\\101\\x0😀"] {
        assert!(!check_escapes(text), "{text}");
    }
}
