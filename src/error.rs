//! Error types of the library.
use vstd::prelude::*;

verus! {

/// A failure of a matching pass.
#[derive(Debug)]
pub enum PatternError {
    /// A grammar could not be compiled; the message says why.
    InvalidRegex(String),
    ProcessingFailed(String),
}

/// A failure while rendering the legend.
#[derive(Debug)]
pub enum LegendError {
    FormatError(String),
}

/// Any failure of an anonymization run.
#[derive(Debug)]
pub enum AnonymizationError {
    Pattern(PatternError),
    /// Reading the input failed; the message says why.
    Io(String),
    Legend(LegendError),
}

impl From<PatternError> for AnonymizationError {
    fn from(err: PatternError) -> (r: AnonymizationError)
        ensures
            r == AnonymizationError::Pattern(err),
    {
        AnonymizationError::Pattern(err)
    }
}

impl vstd::std_specs::convert::FromSpecImpl<PatternError> for AnonymizationError {
    open spec fn obeys_from_spec() -> bool {
        true
    }

    open spec fn from_spec(err: PatternError) -> AnonymizationError {
        AnonymizationError::Pattern(err)
    }
}

impl From<LegendError> for AnonymizationError {
    fn from(err: LegendError) -> (r: AnonymizationError)
        ensures
            r == AnonymizationError::Legend(err),
    {
        AnonymizationError::Legend(err)
    }
}

impl vstd::std_specs::convert::FromSpecImpl<LegendError> for AnonymizationError {
    open spec fn obeys_from_spec() -> bool {
        true
    }

    open spec fn from_spec(err: LegendError) -> AnonymizationError {
        AnonymizationError::Legend(err)
    }
}

fn prefixed(prefix: &str, msg: &String) -> (r: String)
    ensures
        r@ == prefix@ + msg@,
{
    let mut s = String::from_str(prefix);
    s.append(msg.as_str());
    s
}

impl PatternError {
    pub open spec fn message_spec(&self) -> Seq<char> {
        match self {
            PatternError::InvalidRegex(m) => "Invalid regex: "@ + m@,
            PatternError::ProcessingFailed(m) => "Processing failed: "@ + m@,
        }
    }

    /// The error as a sentence for the user.
    pub fn message(&self) -> (r: String)
        ensures
            r@ == self.message_spec(),
    {
        match self {
            PatternError::InvalidRegex(m) => prefixed("Invalid regex: ", m),
            PatternError::ProcessingFailed(m) => prefixed("Processing failed: ", m),
        }
    }
}

impl LegendError {
    pub open spec fn message_spec(&self) -> Seq<char> {
        match self {
            LegendError::FormatError(m) => "Format error: "@ + m@,
        }
    }

    /// The error as a sentence for the user.
    pub fn message(&self) -> (r: String)
        ensures
            r@ == self.message_spec(),
    {
        match self {
            LegendError::FormatError(m) => prefixed("Format error: ", m),
        }
    }
}

impl AnonymizationError {
    pub open spec fn message_spec(&self) -> Seq<char> {
        match self {
            AnonymizationError::Pattern(e) => "Pattern error: "@ + e.message_spec(),
            AnonymizationError::Io(m) => "IO error: "@ + m@,
            AnonymizationError::Legend(e) => "Legend error: "@ + e.message_spec(),
        }
    }

    /// The error as a sentence for the user.
    pub fn message(&self) -> (r: String)
        ensures
            r@ == self.message_spec(),
    {
        match self {
            AnonymizationError::Pattern(e) => prefixed("Pattern error: ", &e.message()),
            AnonymizationError::Io(m) => prefixed("IO error: ", m),
            AnonymizationError::Legend(e) => prefixed("Legend error: ", &e.message()),
        }
    }
}

} // verus!
