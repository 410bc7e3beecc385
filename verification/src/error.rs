use vstd::prelude::*;

verus! {

/// Errors of configuration loading and rule validation.
#[derive(Debug)]
pub enum CellariaError {
    /// A malformed configuration value.
    Config(String),
    /// A rule whose fields contradict each other.
    RuleValidation(String),
    /// Grid dimensions or coordinates that do not fit.
    GridBounds(String),
    /// A file could not be read.
    Io(String),
}

/// The kind of an error, without its message.
#[derive(Debug, Clone, Copy, PartialEq, Eq, Structural)]
pub enum ErrorKind {
    Config,
    RuleValidation,
    GridBounds,
    Io,
}

pub open spec fn error_kind(e: CellariaError) -> ErrorKind {
    match e {
        CellariaError::Config(_) => ErrorKind::Config,
        CellariaError::RuleValidation(_) => ErrorKind::RuleValidation,
        CellariaError::GridBounds(_) => ErrorKind::GridBounds,
        CellariaError::Io(_) => ErrorKind::Io,
    }
}

impl CellariaError {
    /// The kind of this error.
    pub fn kind(&self) -> (k: ErrorKind)
        ensures
            k == error_kind(*self),
    {
        match self {
            CellariaError::Config(_) => ErrorKind::Config,
            CellariaError::RuleValidation(_) => ErrorKind::RuleValidation,
            CellariaError::GridBounds(_) => ErrorKind::GridBounds,
            CellariaError::Io(_) => ErrorKind::Io,
        }
    }

    /// Human-readable text: a prefix naming the kind, then the message.
    pub fn message(&self) -> (s: String)
        ensures
            s@ == match *self {
                CellariaError::Config(m) => "Config error: "@ + m@,
                CellariaError::RuleValidation(m) => "Rule validation error: "@ + m@,
                CellariaError::GridBounds(m) => "Grid bounds error: "@ + m@,
                CellariaError::Io(m) => "IO error: "@ + m@,
            },
    {
        let (mut s, m) = match self {
            CellariaError::Config(m) => (String::from_str("Config error: "), m),
            CellariaError::RuleValidation(m) => (String::from_str("Rule validation error: "), m),
            CellariaError::GridBounds(m) => (String::from_str("Grid bounds error: "), m),
            CellariaError::Io(m) => (String::from_str("IO error: "), m),
        };
        s.append(m.as_str());
        s
    }
}

} // verus!
