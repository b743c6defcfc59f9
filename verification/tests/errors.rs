use rune_interpreter::errors::error_to_string_text;
use rune_interpreter::errors::{error_string_text, legacy_kind_of_text, ErrorKind};

#[test]
fn test_kind_names_and_indices() {
    let cases = [
        (ErrorKind::Error, "Error", 0),
        (ErrorKind::EvalError, "EvalError", 1),
        (ErrorKind::RangeError, "RangeError", 2),
        (ErrorKind::ReferenceError, "ReferenceError", 3),
        (ErrorKind::SyntaxError, "SyntaxError", 4),
        (ErrorKind::TypeError, "TypeError", 5),
        (ErrorKind::UriError, "URIError", 6),
    ];
    for (kind, name, idx) in cases {
        assert_eq!(kind.name(), name);
        assert_eq!(kind.proto_index(), idx);
        assert_eq!(ErrorKind::parse(name), Some(kind));
    }
    assert_eq!(ErrorKind::parse("Bogus"), None);
    assert_eq!(ErrorKind::parse(""), None);
}

#[test]
fn test_split_legacy() {
    assert_eq!(
        ErrorKind::split_legacy("TypeError: bad thing"),
        (ErrorKind::TypeError, "bad thing")
    );
    assert_eq!(
        ErrorKind::split_legacy("RangeError: x: y"),
        (ErrorKind::RangeError, "x: y")
    );
    // No prefix: plain Error with the whole string.
    assert_eq!(
        ErrorKind::split_legacy("assert.sameValue: nope"),
        (ErrorKind::Error, "assert.sameValue: nope")
    );
    assert_eq!(
        ErrorKind::split_legacy("140-character run of text with no colon space at all"),
        (
            ErrorKind::Error,
            "140-character run of text with no colon space at all"
        )
    );
    // Unknown prefix stays whole.
    assert_eq!(
        ErrorKind::split_legacy("Bogus: thing"),
        (ErrorKind::Error, "Bogus: thing")
    );
}

#[test]
fn test_error_string_encoding() {
    let s = error_string_text(ErrorKind::TypeError, "bad thing");
    assert_eq!(s, "TypeError: bad thing");
}

#[test]
fn test_legacy_kind_of() {
    let s = error_string_text(ErrorKind::SyntaxError, "oops");
    assert_eq!(legacy_kind_of_text(&s), Some(ErrorKind::SyntaxError));
    assert_eq!(legacy_kind_of_text("oops"), None);
}

#[test]
fn split_legacy_reads_back_every_kind() {
    let kinds = [
        ErrorKind::Error,
        ErrorKind::EvalError,
        ErrorKind::RangeError,
        ErrorKind::ReferenceError,
        ErrorKind::SyntaxError,
        ErrorKind::TypeError,
        ErrorKind::UriError,
    ];
    for kind in kinds {
        for msg in ["", "plain", "with: colon", "ünïcödé: text"] {
            let s = error_string_text(kind, msg);
            assert_eq!(ErrorKind::split_legacy(&s), (kind, msg));
            assert_eq!(legacy_kind_of_text(&s), Some(kind));
        }
    }
}

#[test]
fn split_legacy_edge_cases() {
    // Empty prefix and a separator without a known kind.
    assert_eq!(ErrorKind::split_legacy(": x"), (ErrorKind::Error, ": x"));
    assert_eq!(ErrorKind::split_legacy(""), (ErrorKind::Error, ""));
    assert_eq!(ErrorKind::split_legacy("TypeError:"), (ErrorKind::Error, "TypeError:"));
    assert_eq!(ErrorKind::split_legacy("TypeError: "), (ErrorKind::TypeError, ""));
    // Only the first ": " counts.
    assert_eq!(
        ErrorKind::split_legacy("x: TypeError: y"),
        (ErrorKind::Error, "x: TypeError: y")
    );
    // A separator far into the text never names a kind.
    let long = format!("{}: tail", "a".repeat(80));
    assert_eq!(ErrorKind::split_legacy(&long), (ErrorKind::Error, long.as_str()));
    assert_eq!(legacy_kind_of_text(&long), None);
    assert_eq!(legacy_kind_of_text("Error: e"), Some(ErrorKind::Error));
    assert_eq!(legacy_kind_of_text("typeerror: e"), None);
}

#[test]
fn test_error_to_string_text() {
    assert_eq!(error_to_string_text(None, None), "Error");
    assert_eq!(error_to_string_text(Some("TypeError"), Some("bad")), "TypeError: bad");
    assert_eq!(error_to_string_text(Some(""), Some("only message")), "only message");
    assert_eq!(error_to_string_text(Some("Name"), Some("")), "Name");
    assert_eq!(error_to_string_text(None, Some("m")), "Error: m");
    assert_eq!(error_to_string_text(Some(""), None), "");
}
