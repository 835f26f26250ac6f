use vstd::prelude::*;

verus! {

/// Problems found while building a word from its parts.
#[derive(Debug, PartialEq, Eq, Structural, Clone, Copy)]
pub enum WordError {
    /// Prefix and suffix are empty and the crossed character is whitespace.
    EmptyOrWhitespaceSegment,
    /// Some character of the word is lowercase.
    LowercaseCharactersInSegment,
}

/// Problems raised by operations on the grid.
#[derive(Debug, Clone)]
pub enum GridError {
    /// An operation was asked to act along the unset direction.
    InvalidDirection(String),
    /// A candidate word could not be built.
    WordError(WordError),
}

/// Errors of a whole generation run.
#[derive(Debug, Clone)]
pub enum Error {
    /// An input word was refused.
    WordError(WordError),
    /// A grid operation failed during the search.
    GridError(GridError),
    /// Any other failure, described in words.
    Custom(String),
}

impl WordError {
    /// The text that `message` returns.
    pub open spec fn spec_message(self) -> Seq<char> {
        match self {
            WordError::EmptyOrWhitespaceSegment => "Segment cannot be empty or contain only whitespace."@,
            WordError::LowercaseCharactersInSegment => "Segment cannot contain lowercase characters."@,
        }
    }

    /// Human-readable description of the error.
    pub fn message(&self) -> (r: String)
        ensures
            r@ == self.spec_message(),
    {
        match self {
            WordError::EmptyOrWhitespaceSegment => String::from_str(
                "Segment cannot be empty or contain only whitespace.",
            ),
            WordError::LowercaseCharactersInSegment => String::from_str(
                "Segment cannot contain lowercase characters.",
            ),
        }
    }
}

impl GridError {
    /// The text that `message` returns.
    pub open spec fn spec_message(self) -> Seq<char> {
        match self {
            GridError::InvalidDirection(msg) => "Invalid direction: "@ + msg@,
            GridError::WordError(e) => "Word error: "@ + e.spec_message(),
        }
    }

    /// Human-readable description of the error.
    pub fn message(&self) -> (r: String)
        ensures
            r@ == self.spec_message(),
    {
        match self {
            GridError::InvalidDirection(msg) => String::from_str("Invalid direction: ").concat(
                msg.as_str(),
            ),
            GridError::WordError(e) => String::from_str("Word error: ").concat(
                e.message().as_str(),
            ),
        }
    }
}

impl Error {
    /// The text that `message` returns.
    pub open spec fn spec_message(self) -> Seq<char> {
        match self {
            Error::WordError(e) => "Word error: "@ + e.spec_message(),
            Error::GridError(e) => "Grid error: "@ + e.spec_message(),
            Error::Custom(msg) => "Application error: "@ + msg@,
        }
    }

    /// Human-readable description of the error.
    pub fn message(&self) -> (r: String)
        ensures
            r@ == self.spec_message(),
    {
        match self {
            Error::WordError(e) => String::from_str("Word error: ").concat(e.message().as_str()),
            Error::GridError(e) => String::from_str("Grid error: ").concat(e.message().as_str()),
            Error::Custom(msg) => String::from_str("Application error: ").concat(msg.as_str()),
        }
    }
}

impl From<WordError> for GridError {
    fn from(err: WordError) -> (r: GridError)
        ensures
            r == GridError::WordError(err),
    {
        GridError::WordError(err)
    }
}

impl vstd::std_specs::convert::FromSpecImpl<WordError> for GridError {
    open spec fn obeys_from_spec() -> bool {
        true
    }

    open spec fn from_spec(v: WordError) -> GridError {
        GridError::WordError(v)
    }
}

impl From<WordError> for Error {
    fn from(err: WordError) -> (r: Error)
        ensures
            r == Error::WordError(err),
    {
        Error::WordError(err)
    }
}

impl vstd::std_specs::convert::FromSpecImpl<WordError> for Error {
    open spec fn obeys_from_spec() -> bool {
        true
    }

    open spec fn from_spec(v: WordError) -> Error {
        Error::WordError(v)
    }
}

impl From<GridError> for Error {
    fn from(err: GridError) -> (r: Error)
        ensures
            r == Error::GridError(err),
    {
        Error::GridError(err)
    }
}

impl vstd::std_specs::convert::FromSpecImpl<GridError> for Error {
    open spec fn obeys_from_spec() -> bool {
        true
    }

    open spec fn from_spec(v: GridError) -> Error {
        Error::GridError(v)
    }
}

} // verus!
