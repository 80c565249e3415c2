use kajet::sections::SectionLookupError;
use kajet::transforms::{MatchPosition, ReplaceError, TransformError};

#[test]
fn lookup_error_messages() {
    let nf = SectionLookupError::NotFound {
        available: vec!["Intro".to_string(), "Tasks".to_string()],
    };
    assert_eq!(nf.message(), "Heading not found. Available: Intro, Tasks");
    let amb = SectionLookupError::Ambiguous { count: 3 };
    assert_eq!(amb.message(), "Heading is ambiguous: 3 matches found");
    let t = TransformError::HeadingAmbiguous { count: 12 };
    assert_eq!(t.message(), "Heading is ambiguous: 12 matches found");
    let t = TransformError::HeadingNotFound { available: vec![] };
    assert_eq!(t.message(), "Heading not found. Available: ");
}

#[test]
fn replace_error_messages() {
    assert_eq!(ReplaceError::NotFound.message(), "Text not found");
    let e = ReplaceError::Ambiguous {
        count: 2,
        positions: vec![
            MatchPosition {
                line: 1,
                column: 5,
                context: "foo bar".to_string(),
            },
            MatchPosition {
                line: 10,
                column: 0,
                context: "bar".to_string(),
            },
        ],
    };
    assert_eq!(
        e.message(),
        "Ambiguous: 2 matches found:\n  line 1, col 5: ...foo bar...\n  line 10, col 0: ...bar...\n"
    );
}
