//! The kinds of session that time is tracked in, with the rules that
//! depend on the kind alone. Lengths are whole numbers of minutes or
//! seconds.

use vstd::prelude::*;

verus! {

/// What kind of session it is.
#[derive(Clone, Copy, Debug, PartialEq, Eq, Hash, Structural)]
pub enum Kind {
    /// A session focused on doing something.
    Task,
    /// A recovery session.
    Break,
    /// A session spent in a meeting.
    Meeting,
    /// Time spent offline.
    Offline,
}

/// How long a session of each kind lasts unless told otherwise, in minutes.
pub open spec fn default_minutes(kind: Kind) -> int {
    match kind {
        Kind::Task => 25,
        Kind::Break => 5,
        Kind::Meeting => 60,
        Kind::Offline => 60,
    }
}

impl Kind {
    /// The length of a session of this kind unless told otherwise, in
    /// minutes.
    pub fn default_session_length(&self) -> (minutes: i64)
        ensures
            minutes == default_minutes(*self),
    {
        match self {
            Kind::Task => 25,
            Kind::Break => 5,
            Kind::Meeting => 60,
            Kind::Offline => 60,
        }
    }
}

/// Whether a break counts as short or long.
#[derive(Clone, Copy, Debug, PartialEq, Eq, Structural)]
pub enum BreakKind {
    Short,
    Long,
}

/// The longest break that still counts as short, in seconds: a quarter of
/// an hour.
pub const SHORT_VS_LONG_CUTOFF: i64 = 900;

impl BreakKind {
    /// The kind of a break that lasted the given number of seconds: short
    /// up to the cutoff, the cutoff included, long beyond it.
    pub fn from_seconds(seconds: i64) -> (kind: BreakKind)
        ensures
            kind == if seconds <= SHORT_VS_LONG_CUTOFF {
                BreakKind::Short
            } else {
                BreakKind::Long
            },
    {
        if seconds <= SHORT_VS_LONG_CUTOFF {
            BreakKind::Short
        } else {
            BreakKind::Long
        }
    }
}

/// Why a session could not be started.
#[derive(Clone, Copy, Debug, PartialEq, Eq, Structural)]
pub enum StartSessionError {
    /// The description was blank.
    DescriptionWasBlank,
}

impl StartSessionError {
    /// The error in words.
    pub fn message(&self) -> (s: String)
        ensures
            s@ == "description cannot be blank"@,
    {
        match self {
            StartSessionError::DescriptionWasBlank => "description cannot be blank".to_owned(),
        }
    }
}

} // verus!
