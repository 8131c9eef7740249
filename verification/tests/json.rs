//! JSON values as text.
use faktor::json::{list_value, object2, text_value, Json};

fn number(n: &str) -> Json {
    Json::Number(n.to_string())
}

#[test]
fn numbers_are_written_as_they_are() {
    for n in [
        "0",
        "7",
        "-12",
        "18446744073709551615",
        "-9223372036854775808",
        "1.0",
        "-0.0",
        "0.1",
        "1.5e+300",
        "0.30000000000000004",
        "5e-324",
        "1.7976931348623157e+308",
    ] {
        assert_eq!(number(n).to_text(), n);
    }
    assert_eq!(number("seven").to_text(), "null");
}

#[test]
fn values_are_written_on_one_line() {
    assert_eq!(Json::Null.to_text(), "null");
    assert_eq!(Json::Bool(true).to_text(), "true");
    assert_eq!(text_value("a\"b\\\n").to_text(), r#""a\"b\\\n""#);
    assert_eq!(list_value(vec![]).to_text(), "[]");
    let both = object2("b", list_value(vec![number("1"), Json::Null]), "a", text_value("x"));
    assert_eq!(both.to_text(), r#"{"a":"x","b":[1,null]}"#);
    assert_eq!(object2("k", number("1"), "k", number("2")).to_text(), r#"{"k":2}"#);
}
