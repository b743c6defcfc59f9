use rune_interpreter::regexp_flags::{flags_text, parse_flags, FlagError};

#[test]
fn test_flags_parse_bits() {
    assert_eq!(parse_flags(""), Ok(0));
    assert_eq!(parse_flags("g"), Ok(1));
    assert_eq!(parse_flags("gi"), Ok(3));
    assert_eq!(parse_flags("dgimsuvy"), Ok(255));
    assert_eq!(parse_flags("yv"), Ok(32 | 128));
}

#[test]
fn test_flags_refused() {
    assert_eq!(parse_flags("gx"), Err(FlagError::Invalid));
    assert_eq!(parse_flags("gg"), Err(FlagError::Duplicate));
    // the first problem decides the error
    assert_eq!(parse_flags("ggx"), Err(FlagError::Duplicate));
    assert_eq!(parse_flags("xgg"), Err(FlagError::Invalid));
    assert_eq!(parse_flags("G"), Err(FlagError::Invalid));
    assert_eq!(FlagError::Invalid.message(), "SyntaxError: Invalid regular expression flags");
    assert_eq!(FlagError::Duplicate.message(), "SyntaxError: Duplicate regular expression flag");
}

#[test]
fn test_flags_text_canonical_order() {
    assert_eq!(flags_text(0), "");
    assert_eq!(flags_text(255), "gimsuydv");
    assert_eq!(flags_text(1 | 64 | 128), "gdv");
    assert_eq!(flags_text(parse_flags("ymg").unwrap()), "gmy");
    for b in 0..256u32 {
        assert_eq!(parse_flags(&flags_text(b)), Ok(b));
    }
    // bits above the eight flags are not written
    assert_eq!(flags_text(256 | 2), "i");
}
