use crunch_str::session::{BreakKind, Kind, StartSessionError, SHORT_VS_LONG_CUTOFF};

#[test]
fn kind_break_kind_short() {
    assert_eq!(BreakKind::from_seconds(0), BreakKind::Short)
}

#[test]
fn kind_break_kind_at_threshold() {
    assert_eq!(BreakKind::from_seconds(SHORT_VS_LONG_CUTOFF), BreakKind::Short)
}

#[test]
fn kind_break_kind_long() {
    assert_eq!(BreakKind::from_seconds(24 * 60 * 60), BreakKind::Long)
}

#[test]
fn break_kind_just_over_threshold() {
    assert_eq!(SHORT_VS_LONG_CUTOFF, 15 * 60);
    assert_eq!(BreakKind::from_seconds(901), BreakKind::Long);
    assert_eq!(BreakKind::from_seconds(-1), BreakKind::Short);
}

#[test]
fn default_session_lengths() {
    assert_eq!(Kind::Task.default_session_length(), 25);
    assert_eq!(Kind::Break.default_session_length(), 5);
    assert_eq!(Kind::Meeting.default_session_length(), 60);
    assert_eq!(Kind::Offline.default_session_length(), 60);
}

#[test]
fn start_session_error_message() {
    assert_eq!(
        StartSessionError::DescriptionWasBlank.message(),
        "description cannot be blank"
    );
}
