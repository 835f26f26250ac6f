use crate::error::WordError;
use vstd::prelude::*;
use vstd::string::StrSliceExecFns;
use vstd::string::StringExecFns;

verus! {

/// Orientation of a word on the board.
#[derive(Debug, PartialEq, Eq, Structural, Clone, Copy)]
pub enum Direction {
    /// Left to right.
    Horizontal,
    /// Top to bottom.
    Vertical,
    /// Not assigned yet; grid operations refuse it.
    NotSet,
}

impl Direction {
    /// The direction at right angles to this one (the unset direction stays unset).
    pub open spec fn opposite(self) -> Direction {
        match self {
            Direction::Horizontal => Direction::Vertical,
            Direction::Vertical => Direction::Horizontal,
            Direction::NotSet => Direction::NotSet,
        }
    }
}

impl Default for Direction {
    fn default() -> (r: Direction)
        ensures
            r == Direction::NotSet,
    {
        Direction::NotSet
    }
}

/// A cell of the board: `x` is the column, `y` the row.
#[derive(Debug, PartialEq, Eq, Structural, Clone, Copy)]
pub struct Position {
    pub x: usize,
    pub y: usize,
}

impl Default for Position {
    fn default() -> (r: Position)
        ensures
            r == (Position { x: 0, y: 0 }),
    {
        Position { x: 0, y: 0 }
    }
}

/// Whether `c` has the Unicode `Lowercase` property.
pub uninterp spec fn lowercase_char(c: char) -> bool;

/// Relies on `char::is_lowercase`: its answer depends on the character alone.
#[verifier::external_body]
fn char_is_lowercase(c: char) -> (r: bool)
    ensures
        r == lowercase_char(c),
{
    c.is_lowercase()
}

/// Relies on `String::push`: appends one character.
#[verifier::external_body]
fn push_char(s: &mut String, c: char)
    ensures
        final(s)@ == old(s)@.push(c),
{
    s.push(c)
}

/// ASCII whitespace: space, tab, line feed, form feed, carriage return.
pub open spec fn ascii_whitespace(c: char) -> bool {
    c == ' ' || c == '\t' || c == '\n' || c == '\x0C' || c == '\r'
}

/// Whether `c` is ASCII whitespace.
pub fn is_ascii_whitespace(c: char) -> (r: bool)
    ensures
        r == ascii_whitespace(c),
{
    c == ' ' || c == '\t' || c == '\n' || c == '\x0C' || c == '\r'
}

/// Some character of `s` is lowercase.
pub open spec fn has_lowercase(s: Seq<char>) -> bool {
    exists|i: int| 0 <= i < s.len() && lowercase_char(#[trigger] s[i])
}

/// Whether some character of `s` is lowercase.
pub fn str_has_lowercase(s: &str) -> (r: bool)
    ensures
        r == has_lowercase(s@),
{
    let n = s.unicode_len();
    let mut i: usize = 0;
    while i < n
        invariant
            n == s@.len(),
            i <= n,
            forall|j: int| 0 <= j < i ==> !lowercase_char(#[trigger] s@[j]),
        decreases n - i,
    {
        if char_is_lowercase(s.get_char(i)) {
            return true;
        }
        i = i + 1;
    }
    false
}

/// The error, if any, that building a segment from these parts reports.
pub open spec fn segment_error(prefix: Seq<char>, crossed: char, suffix: Seq<char>) -> Option<
    WordError,
> {
    if prefix.len() == 0 && suffix.len() == 0 && ascii_whitespace(crossed) {
        Some(WordError::EmptyOrWhitespaceSegment)
    } else if has_lowercase(prefix) || lowercase_char(crossed) || has_lowercase(suffix) {
        Some(WordError::LowercaseCharactersInSegment)
    } else {
        None
    }
}

/// A word split around the character where it crosses another word.
#[derive(Debug, Clone, Copy)]
pub struct Segment<'a> {
    /// The characters before the crossed one.
    pub prefix: &'a str,
    /// The character shared with the crossing word.
    pub crossed: char,
    /// The characters after the crossed one.
    pub suffix: &'a str,
}

impl<'a> Segment<'a> {
    /// The whole word: prefix, crossed character, suffix.
    pub open spec fn full(&self) -> Seq<char> {
        self.prefix@ + seq![self.crossed] + self.suffix@
    }

    /// A segment that `new` accepts.
    pub open spec fn wf(&self) -> bool {
        segment_error(self.prefix@, self.crossed, self.suffix@) is None
    }

    /// Builds a segment, refusing an empty or whitespace-only one and any lowercase character.
    pub fn new(prefix: &'a str, crossed: char, suffix: &'a str) -> (r: Result<Self, WordError>)
        ensures
            match r {
                Ok(s) => {
                    &&& segment_error(prefix@, crossed, suffix@) is None
                    &&& s.prefix == prefix
                    &&& s.crossed == crossed
                    &&& s.suffix == suffix
                },
                Err(e) => segment_error(prefix@, crossed, suffix@) == Some(e),
            },
    {
        if prefix.unicode_len() == 0 && suffix.unicode_len() == 0 && is_ascii_whitespace(crossed) {
            return Err(WordError::EmptyOrWhitespaceSegment);
        }
        if str_has_lowercase(prefix) || char_is_lowercase(crossed) || str_has_lowercase(suffix) {
            return Err(WordError::LowercaseCharactersInSegment);
        }
        Ok(Segment { prefix, crossed, suffix })
    }

    /// The characters of the whole word.
    pub fn full_word(&self) -> (r: Vec<char>)
        ensures
            r@ == self.full(),
    {
        let mut out: Vec<char> = Vec::new();
        let np = self.prefix.unicode_len();
        let mut i: usize = 0;
        while i < np
            invariant
                np == self.prefix@.len(),
                i <= np,
                out@ == self.prefix@.subrange(0, i as int),
            decreases np - i,
        {
            out.push(self.prefix.get_char(i));
            i = i + 1;
        }
        assert(out@ == self.prefix@);
        out.push(self.crossed);
        let ns = self.suffix.unicode_len();
        let mut j: usize = 0;
        while j < ns
            invariant
                ns == self.suffix@.len(),
                j <= ns,
                out@ == self.prefix@ + seq![self.crossed] + self.suffix@.subrange(0, j as int),
            decreases ns - j,
        {
            out.push(self.suffix.get_char(j));
            j = j + 1;
        }
        assert(self.suffix@.subrange(0, ns as int) == self.suffix@);
        out
    }

    /// The whole word as a string.
    pub fn full_word_str(&self) -> (r: String)
        ensures
            r@ == self.full(),
    {
        let mut s = String::from_str(self.prefix);
        push_char(&mut s, self.crossed);
        s.concat(self.suffix)
    }
}

/// `a - b`, or zero where `b > a`.
pub open spec fn sat_sub(a: usize, b: nat) -> usize {
    if a >= b {
        (a - b) as usize
    } else {
        0
    }
}

/// The words' mathematical model.
pub struct WordView {
    pub prefix: Seq<char>,
    pub crossed: char,
    pub suffix: Seq<char>,
    pub position: Position,
    pub origin: Position,
    pub direction: Direction,
}

impl WordView {
    /// The whole word: prefix, crossed character, suffix.
    pub open spec fn full(self) -> Seq<char> {
        self.prefix + seq![self.crossed] + self.suffix
    }

    /// The origin that the position, direction and prefix length determine.
    pub open spec fn computed_origin(self) -> Position {
        match self.direction {
            Direction::Horizontal => Position {
                x: sat_sub(self.position.x, self.prefix.len()),
                y: self.position.y,
            },
            Direction::Vertical => Position {
                x: self.position.x,
                y: sat_sub(self.position.y, self.prefix.len()),
            },
            Direction::NotSet => self.origin,
        }
    }

    /// The same word with its origin recomputed.
    pub open spec fn with_origin_updated(self) -> WordView {
        WordView { origin: self.computed_origin(), ..self }
    }

    /// The cells the word covers, from its origin along its direction.
    pub open spec fn cells(self) -> Seq<Position> {
        match self.direction {
            Direction::Horizontal => Seq::new(
                self.full().len(),
                |i: int| Position { x: (self.origin.x + i) as usize, y: self.origin.y },
            ),
            Direction::Vertical => Seq::new(
                self.full().len(),
                |i: int| Position { x: self.origin.x, y: (self.origin.y + i) as usize },
            ),
            Direction::NotSet => Seq::empty(),
        }
    }
}

/// A word with its place on the board.
#[derive(Debug, Clone, Copy)]
pub struct Word<'a> {
    /// The word's characters, split at the crossing.
    pub segment: Segment<'a>,
    /// The cell of the crossed character.
    pub position: Position,
    /// The cell of the first character.
    pub origin: Position,
    /// The direction the word runs in.
    pub direction: Direction,
}

impl<'a> View for Word<'a> {
    type V = WordView;

    open spec fn view(&self) -> WordView {
        WordView {
            prefix: self.segment.prefix@,
            crossed: self.segment.crossed,
            suffix: self.segment.suffix@,
            position: self.position,
            origin: self.origin,
            direction: self.direction,
        }
    }
}

impl<'a> Word<'a> {
    /// Builds an unplaced word: position and origin at the corner, direction unset.
    pub fn value(prefix: &'a str, crossed: char, suffix: &'a str) -> (r: Result<Self, WordError>)
        ensures
            match r {
                Ok(w) => {
                    &&& segment_error(prefix@, crossed, suffix@) is None
                    &&& w.segment.prefix == prefix
                    &&& w.segment.crossed == crossed
                    &&& w.segment.suffix == suffix
                    &&& w.position == Position { x: 0, y: 0 }
                    &&& w.origin == Position { x: 0, y: 0 }
                    &&& w.direction == Direction::NotSet
                },
                Err(e) => segment_error(prefix@, crossed, suffix@) == Some(e),
            },
    {
        match Segment::new(prefix, crossed, suffix) {
            Ok(segment) => Ok(
                Word {
                    segment,
                    position: Position { x: 0, y: 0 },
                    origin: Position { x: 0, y: 0 },
                    direction: Direction::NotSet,
                },
            ),
            Err(e) => Err(e),
        }
    }

    /// The same word with its crossed character at `(x, y)`.
    pub fn position(self, x: usize, y: usize) -> (r: Self)
        ensures
            r == (Word { position: Position { x, y }, ..self }),
    {
        Word { position: Position { x, y }, ..self }
    }

    /// The same word running in `direction`.
    pub fn direction(self, direction: Direction) -> (r: Self)
        ensures
            r == (Word { direction, ..self }),
    {
        Word { direction, ..self }
    }

    /// Recomputes the origin from the position, the direction and the prefix length.
    pub fn update_position(&mut self)
        ensures
            final(self)@ == old(self)@.with_origin_updated(),
            final(self).segment == old(self).segment,
    {
        let plen = self.segment.prefix.unicode_len();
        match self.direction {
            Direction::Vertical => {
                self.origin.x = self.position.x;
                self.origin.y = self.position.y.saturating_sub(plen);
            },
            Direction::Horizontal => {
                self.origin.x = self.position.x.saturating_sub(plen);
                self.origin.y = self.position.y;
            },
            Direction::NotSet => {},
        }
    }

    /// The cells the word covers, from its origin; none while the direction is unset.
    pub fn positions(&self) -> (r: Vec<Position>)
        requires
            self.direction == Direction::Horizontal ==> self.origin.x + self@.full().len()
                <= usize::MAX,
            self.direction == Direction::Vertical ==> self.origin.y + self@.full().len()
                <= usize::MAX,
        ensures
            r@ == self@.cells(),
    {
        let length = self.segment.full_word().len();
        let mut out: Vec<Position> = Vec::new();
        match self.direction {
            Direction::Horizontal => {
                let mut i: usize = 0;
                while i < length
                    invariant
                        length == self@.full().len(),
                        self.origin.x + length <= usize::MAX,
                        self.direction == Direction::Horizontal,
                        i <= length,
                        out@ == self@.cells().subrange(0, i as int),
                    decreases length - i,
                {
                    out.push(Position { x: self.origin.x + i, y: self.origin.y });
                    i = i + 1;
                }
            },
            Direction::Vertical => {
                let mut i: usize = 0;
                while i < length
                    invariant
                        length == self@.full().len(),
                        self.origin.y + length <= usize::MAX,
                        self.direction == Direction::Vertical,
                        i <= length,
                        out@ == self@.cells().subrange(0, i as int),
                    decreases length - i,
                {
                    out.push(Position { x: self.origin.x, y: self.origin.y + i });
                    i = i + 1;
                }
            },
            Direction::NotSet => {},
        }
        assert(out@ == self@.cells());
        out
    }
}

} // verus!
