use namegen::format_string;
use namegen::FormattingRule;

#[test]
fn test_format_rules() {
    assert_eq!(format_string("hello", &[FormattingRule::CapitalizeDefault]), "HELLO");
    assert_eq!(format_string("hello", &[FormattingRule::CapitalizeFirst]), "Hello");
    assert_eq!(format_string("hello", &[FormattingRule::RemoveChar('l')]), "heo");
    assert_eq!(
        format_string("hello_world", &[FormattingRule::ReplaceChar { from: '_', to: ' ' }]),
        "hello world"
    );
    assert_eq!(format_string("hello_world", &[FormattingRule::CapitalizeAfter('_')]), "hello_World");

    // Test case for the one-to-multi capitalization.
    assert_eq!(format_string("straße", &[FormattingRule::CapitalizeDefault]), "STRASSE");
}

#[test]
fn test_multiple_capitalization() {
    assert_eq!(
        format_string(
            "t'soni",
            &[FormattingRule::CapitalizeFirst, FormattingRule::CapitalizeAfter('\'')]
        ),
        "T'Soni"
    );

    assert_eq!(
        format_string(
            "du_bois",
            &[
                FormattingRule::CapitalizeFirst,
                FormattingRule::CapitalizeAfter('_'),
                FormattingRule::RemoveChar('_'),
            ]
        ),
        "DuBois"
    );

    assert_eq!(
        format_string(
            "jan_mayr",
            &[
                FormattingRule::CapitalizeFirst,
                FormattingRule::CapitalizeAfter('_'),
                FormattingRule::ReplaceChar { from: '_', to: ' ' },
            ]
        ),
        "Jan Mayr"
    );
}

#[test]
fn test_format_empty_input() {
    assert_eq!(format_string("", &[FormattingRule::CapitalizeDefault]), "");
    assert_eq!(format_string("hello", &[]), "hello");
    assert_eq!(format_string("llll", &[FormattingRule::RemoveChar('l')]), "");
}
