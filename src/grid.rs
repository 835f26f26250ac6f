use crate::error::{GridError, WordError};
use crate::word::{Direction, Position, Word, WordView, segment_error};
use vstd::prelude::*;
use vstd::string::StrSliceExecFns;
use vstd::string::StringExecFns;

verus! {

/// The placeholder of an unfilled cell.
pub const BLANK: char = ' ';

/// `n` blank cells.
pub open spec fn blanks(n: nat) -> Seq<char> {
    Seq::new(n, |_i: int| BLANK)
}

/// The character at column `x`, row `y`, if that cell exists.
pub open spec fn cell(board: Seq<Seq<char>>, x: int, y: int) -> Option<char> {
    if 0 <= y < board.len() && 0 <= x < board[y].len() && x <= usize::MAX && y <= usize::MAX {
        Some(board[y][x])
    } else {
        None
    }
}

/// A neighbour that is missing or blank.
pub open spec fn empty_or_none(c: Option<char>) -> bool {
    match c {
        Some(ch) => ch == BLANK,
        None => true,
    }
}

/// Whether the two neighbours across `direction` of the cell `(x, y)` are empty:
/// above and below for a horizontal word, left and right for a vertical one.
pub open spec fn perpendicular_empty(board: Seq<Seq<char>>, x: int, y: int, d: Direction) -> bool {
    match d {
        Direction::Horizontal => empty_or_none(cell(board, x, y - 1)) && empty_or_none(
            cell(board, x, y + 1),
        ),
        Direction::Vertical => empty_or_none(cell(board, x - 1, y)) && empty_or_none(
            cell(board, x + 1, y),
        ),
        Direction::NotSet => false,
    }
}

/// The coordinate of `p` along `d` (the row for the unset direction).
pub open spec fn along(p: Position, d: Direction) -> int {
    if d == Direction::Horizontal {
        p.x as int
    } else {
        p.y as int
    }
}

/// The coordinate of `p` across `d`.
pub open spec fn across(p: Position, d: Direction) -> int {
    if d == Direction::Horizontal {
        p.y as int
    } else {
        p.x as int
    }
}

/// The cell at coordinate `a` along `d`, on the line of `p`.
pub open spec fn cell_along(board: Seq<Seq<char>>, p: Position, d: Direction, a: int) -> Option<
    char,
> {
    if d == Direction::Horizontal {
        cell(board, a, p.y as int)
    } else {
        cell(board, p.x as int, a)
    }
}

/// `w` with its position moved by `dx` columns and `dy` rows.
pub open spec fn shifted(w: WordView, dx: nat, dy: nat) -> WordView {
    WordView {
        position: Position { x: (w.position.x + dx) as usize, y: (w.position.y + dy) as usize },
        ..w
    }
}

/// The letter that `w` writes at `(x, y)`, counting only its first `n` characters.
pub open spec fn letter_at(w: WordView, x: int, y: int, n: int) -> Option<char> {
    match w.direction {
        Direction::Horizontal => if y == w.position.y && w.origin.x <= x < w.origin.x + n {
            Some(w.full()[x - w.origin.x])
        } else {
            None
        },
        Direction::Vertical => if x == w.position.x && w.origin.y <= y < w.origin.y + n {
            Some(w.full()[y - w.origin.y])
        } else {
            None
        },
        Direction::NotSet => None,
    }
}

/// The mathematical model of a grid: the placed words in order and the board, row by row.
pub struct GridView {
    pub words: Seq<WordView>,
    pub board: Seq<Seq<char>>,
}

impl GridView {
    /// Number of rows.
    pub open spec fn height(self) -> int {
        self.board.len() as int
    }

    /// Number of columns, as the first row has them.
    pub open spec fn width(self) -> int {
        self.board[0].len() as int
    }

    /// Number of cells along `d` (rows for the unset direction).
    pub open spec fn extent(self, d: Direction) -> int {
        if d == Direction::Horizontal {
            self.width()
        } else {
            self.height()
        }
    }

    /// Number of cells across `d`.
    pub open spec fn breadth(self, d: Direction) -> int {
        if d == Direction::Horizontal {
            self.height()
        } else {
            self.width()
        }
    }

    /// A rectangular board of at least one cell, with every placed word's crossing cell on it.
    pub open spec fn wf(self) -> bool {
        &&& self.board.len() >= 1
        &&& self.board[0].len() >= 1
        &&& forall|r: int| 0 <= r < self.board.len() ==> #[trigger] self.board[r].len() == self.board[0].len()
        &&& forall|i: int|
            0 <= i < self.words.len() ==> #[trigger] self.words[i].position.x < self.width()
                && self.words[i].position.y < self.height()
    }

    /// The grid grown by `amount` rows or columns at one edge, words moved along when prepending.
    pub open spec fn resized(self, amount: nat, d: Direction, prepend: bool) -> GridView {
        if amount == 0 {
            self
        } else {
            match d {
                Direction::Horizontal => GridView {
                    board: Seq::new(
                        self.board.len(),
                        |r: int|
                            if prepend {
                                blanks(amount) + self.board[r]
                            } else {
                                self.board[r] + blanks(amount)
                            },
                    ),
                    words: if prepend {
                        Seq::new(self.words.len(), |i: int| shifted(self.words[i], amount, 0))
                    } else {
                        self.words
                    },
                },
                Direction::Vertical => GridView {
                    board: if prepend {
                        Seq::new(amount, |r: int| blanks(self.width() as nat)) + self.board
                    } else {
                        self.board + Seq::new(amount, |r: int| blanks(self.width() as nat))
                    },
                    words: if prepend {
                        Seq::new(self.words.len(), |i: int| shifted(self.words[i], 0, amount))
                    } else {
                        self.words
                    },
                },
                Direction::NotSet => self,
            }
        }
    }

    /// How far the prefix of `w` reaches before the low edge.
    pub open spec fn prefix_deficit(w: WordView) -> nat {
        let a = along(w.position, w.direction);
        if a < w.prefix.len() {
            (w.prefix.len() - a) as nat
        } else {
            0
        }
    }

    /// `w` moved `amount` cells along `d`.
    pub open spec fn moved_by(w: WordView, amount: nat, d: Direction) -> WordView {
        if d == Direction::Horizontal {
            shifted(w, amount, 0)
        } else {
            shifted(w, 0, amount)
        }
    }

    /// `w` moved to stay on its letters once the prefix deficit is prepended.
    pub open spec fn moved(w: WordView) -> WordView {
        if w.direction == Direction::Horizontal {
            shifted(w, Self::prefix_deficit(w), 0)
        } else {
            shifted(w, 0, Self::prefix_deficit(w))
        }
    }

    /// How far the suffix of `w` reaches past the high edge, once the prefix deficit is prepended.
    pub open spec fn suffix_deficit(self, w: WordView) -> nat {
        let g1 = self.resized(Self::prefix_deficit(w), w.direction, true);
        let need = along(Self::moved(w).position, w.direction) + w.suffix.len() + 1;
        if g1.extent(w.direction) < need {
            (need - g1.extent(w.direction)) as nat
        } else {
            0
        }
    }

    /// The grid grown so that all of `w` fits along its direction.
    pub open spec fn ensured(self, w: WordView) -> GridView {
        self.resized(Self::prefix_deficit(w), w.direction, true).resized(
            self.suffix_deficit(w),
            w.direction,
            false,
        )
    }

    /// The board with the first `n` letters of `w` written over it.
    pub open spec fn filled(self, w: WordView, n: int) -> GridView {
        GridView {
            words: self.words,
            board: Seq::new(
                self.board.len(),
                |r: int|
                    Seq::new(
                        self.board[r].len(),
                        |c: int|
                            match letter_at(w, c, r, n) {
                                Some(ch) => ch,
                                None => self.board[r][c],
                            },
                    ),
            ),
        }
    }

    /// The grid once `w` is committed: grown, written, appended, and every origin recomputed.
    pub open spec fn added(self, w: WordView) -> GridView {
        let g2 = self.ensured(w);
        let w1 = Self::moved(w).with_origin_updated();
        let g3 = g2.filled(w1, w1.full().len() as int);
        GridView {
            words: g3.words.push(w1).map_values(|v: WordView| v.with_origin_updated()),
            board: g3.board,
        }
    }
}

/// The four cells next to a cell, each with its character where it exists.
#[derive(Debug)]
pub struct Neighbor {
    /// The cell above.
    pub up: Option<(Position, char)>,
    /// The cell to the right.
    pub right: Option<(Position, char)>,
    /// The cell below.
    pub down: Option<(Position, char)>,
    /// The cell to the left.
    pub left: Option<(Position, char)>,
}

/// The board and the words placed on it, in placement order.
#[derive(Debug, Clone)]
pub struct Grid<'a> {
    /// The placed words.
    pub words: Vec<Word<'a>>,
    /// The characters, row by row; `BLANK` marks an unfilled cell.
    pub board: Vec<Vec<char>>,
}

impl<'a> View for Grid<'a> {
    type V = GridView;

    open spec fn view(&self) -> GridView {
        GridView {
            words: self.words@.map_values(|w: Word<'a>| w@),
            board: self.board@.map_values(|r: Vec<char>| r@),
        }
    }
}

impl<'a> Default for Grid<'a> {
    /// The same as `Grid::new`.
    fn default() -> (r: Self)
        ensures
            r@.words == Seq::<WordView>::empty(),
            r@.board == seq![seq![BLANK]],
    {
        Self::new()
    }
}

/// `before` blanks, the characters of `row`, then `after` blanks.
fn padded_row(row: &Vec<char>, before: usize, after: usize) -> (r: Vec<char>)
    ensures
        r@ == blanks(before as nat) + row@ + blanks(after as nat),
{
    let mut out: Vec<char> = Vec::new();
    let mut i: usize = 0;
    while i < before
        invariant
            i <= before,
            out@ == blanks(i as nat),
        decreases before - i,
    {
        out.push(BLANK);
        i = i + 1;
        assert(out@ =~= blanks(i as nat));
    }
    let mut j: usize = 0;
    while j < row.len()
        invariant
            j <= row.len(),
            out@ == blanks(before as nat) + row@.subrange(0, j as int),
        decreases row.len() - j,
    {
        out.push(row[j]);
        j = j + 1;
        assert(out@ =~= blanks(before as nat) + row@.subrange(0, j as int));
    }
    assert(row@.subrange(0, row.len() as int) =~= row@);
    let mut k: usize = 0;
    while k < after
        invariant
            k <= after,
            out@ == blanks(before as nat) + row@ + blanks(k as nat),
        decreases after - k,
    {
        out.push(BLANK);
        k = k + 1;
        assert(out@ =~= blanks(before as nat) + row@ + blanks(k as nat));
    }
    out
}

impl<'a> Grid<'a> {
    /// A grid of one blank cell and no words.
    pub fn new() -> (r: Self)
        ensures
            r@.words == Seq::<WordView>::empty(),
            r@.board == seq![seq![BLANK]],
            r@.wf(),
    {
        let mut row: Vec<char> = Vec::new();
        row.push(BLANK);
        let mut board: Vec<Vec<char>> = Vec::new();
        board.push(row);
        let g = Grid { words: Vec::new(), board };
        assert(g@.board[0] =~= seq![BLANK]);
        assert(g@.board =~= seq![seq![BLANK]]);
        assert(g@.words =~= Seq::<WordView>::empty());
        g
    }

    /// Grows the board by `amount` columns (horizontal) or rows (vertical), at the low edge
    /// when `is_prepend`, moving every placed word's position along with its letters.
    pub fn resize_grid(&mut self, amount: usize, direction: Direction, is_prepend: bool) -> (r:
        Result<(), GridError>)
        requires
            old(self)@.wf(),
        ensures
            amount > 0 && direction == Direction::NotSet ==> {
                &&& r matches Err(GridError::InvalidDirection(_))
                &&& final(self)@ == old(self)@
            },
            !(amount > 0 && direction == Direction::NotSet) ==> {
                &&& r is Ok
                &&& final(self)@ == old(self)@.resized(amount as nat, direction, is_prepend)
            },
            final(self)@.wf(),
    {
        if amount == 0 {
            return Ok(());
        }
        let ghost g = self@;
        match direction {
            Direction::Horizontal => {
                let mut board: Vec<Vec<char>> = Vec::new();
                let mut r: usize = 0;
                while r < self.board.len()
                    invariant
                        g == self@,
                        g.wf(),
                        r <= self.board.len(),
                        board@.len() == r,
                        forall|i: int|
                            0 <= i < r ==> (#[trigger] board@[i])@ == (if is_prepend {
                                blanks(amount as nat) + g.board[i]
                            } else {
                                g.board[i] + blanks(amount as nat)
                            }),
                    decreases self.board.len() - r,
                {
                    let row = if is_prepend {
                        padded_row(&self.board[r], amount, 0)
                    } else {
                        padded_row(&self.board[r], 0, amount)
                    };
                    assert(blanks(0) + g.board[r as int] =~= g.board[r as int]);
                    assert(g.board[r as int] + blanks(0) =~= g.board[r as int]);
                    board.push(row);
                    r = r + 1;
                }
                let width = board[0].len();
                let mut words: Vec<Word<'a>> = Vec::new();
                let mut i: usize = 0;
                while i < self.words.len()
                    invariant
                        g == self@,
                        g.wf(),
                        width == g.width() + amount,
                        i <= self.words.len(),
                        words@.len() == i,
                        forall|j: int|
                            0 <= j < i ==> (#[trigger] words@[j])@ == (if is_prepend {
                                shifted(g.words[j], amount as nat, 0)
                            } else {
                                g.words[j]
                            }),
                    decreases self.words.len() - i,
                {
                    let mut w = self.words[i];
                    assert(w@ == g.words[i as int]);
                    assert(g.words[i as int].position.x < g.width());
                    if is_prepend {
                        w.position.x = w.position.x + amount;
                    }
                    words.push(w);
                    i = i + 1;
                }
                self.board = board;
                self.words = words;
                assert(self@.board =~= g.resized(amount as nat, direction, is_prepend).board);
                assert(self@.words =~= g.resized(amount as nat, direction, is_prepend).words);
            },
            Direction::Vertical => {
                let width = self.board[0].len();
                let empty: Vec<char> = Vec::new();
                let mut board: Vec<Vec<char>> = Vec::new();
                if is_prepend {
                    let mut k: usize = 0;
                    while k < amount
                        invariant
                            g == self@,
                            width == g.width(),
                            k <= amount,
                            empty@.len() == 0,
                            board@.len() == k,
                            forall|i: int|
                                0 <= i < k ==> (#[trigger] board@[i])@ == blanks(width as nat),
                        decreases amount - k,
                    {
                        let row = padded_row(&empty, width, 0);
                        assert(blanks(width as nat) + empty@ + blanks(0) =~= blanks(width as nat));
                        board.push(row);
                        k = k + 1;
                    }
                }
                let base = board.len();
                let mut r: usize = 0;
                while r < self.board.len()
                    invariant
                        g == self@,
                        g.wf(),
                        base == (if is_prepend { amount } else { 0 }),
                        width == g.width(),
                        r <= self.board.len(),
                        board@.len() == base + r,
                        forall|i: int|
                            0 <= i < base ==> (#[trigger] board@[i])@ == blanks(width as nat),
                        forall|i: int|
                            0 <= i < r ==> (#[trigger] board@[base + i])@ == g.board[i],
                    decreases self.board.len() - r,
                {
                    let row = padded_row(&self.board[r], 0, 0);
                    assert(blanks(0) + g.board[r as int] + blanks(0) =~= g.board[r as int]);
                    board.push(row);
                    r = r + 1;
                }
                assert forall|i: int| 0 <= i < g.height() implies (#[trigger] board@[base + i])@
                    == g.board[i] by {}
                if !is_prepend {
                    assert forall|i: int| 0 <= i < g.height() implies (#[trigger] board@[i])@
                        == g.board[i] by {
                        assert(board@[base + i] == board@[i]);
                    }
                    let mut k: usize = 0;
                    while k < amount
                        invariant
                            g == self@,
                            g.wf(),
                            width == g.width(),
                            base == 0,
                            k <= amount,
                            empty@.len() == 0,
                            board@.len() == g.height() + k,
                            forall|i: int|
                                0 <= i < g.height() ==> (#[trigger] board@[i])@ == g.board[i],
                            forall|i: int|
                                g.height() <= i < g.height() + k ==> (#[trigger] board@[i])@
                                    == blanks(width as nat),
                        decreases amount - k,
                    {
                        let row = padded_row(&empty, width, 0);
                        assert(blanks(width as nat) + empty@ + blanks(0) =~= blanks(width as nat));
                        board.push(row);
                        k = k + 1;
                    }
                }
                let height = board.len();
                let mut words: Vec<Word<'a>> = Vec::new();
                let mut i: usize = 0;
                while i < self.words.len()
                    invariant
                        g == self@,
                        g.wf(),
                        height == g.height() + amount,
                        i <= self.words.len(),
                        words@.len() == i,
                        forall|j: int|
                            0 <= j < i ==> (#[trigger] words@[j])@ == (if is_prepend {
                                shifted(g.words[j], 0, amount as nat)
                            } else {
                                g.words[j]
                            }),
                    decreases self.words.len() - i,
                {
                    let mut w = self.words[i];
                    assert(w@ == g.words[i as int]);
                    assert(g.words[i as int].position.y < g.height());
                    if is_prepend {
                        w.position.y = w.position.y + amount;
                    }
                    words.push(w);
                    i = i + 1;
                }
                let ghost target = g.resized(amount as nat, direction, is_prepend);
                assert forall|i: int| 0 <= i < target.board.len() implies (#[trigger] board@[i])@
                    == target.board[i] by {
                    if is_prepend && i >= amount {
                        assert(board@[base + (i - amount)] == board@[i]);
                    }
                }
                self.board = board;
                self.words = words;
                assert(self@.board =~= target.board);
                assert(self@.words =~= target.words);
            },
            Direction::NotSet => {
                return Err(
                    GridError::InvalidDirection(
                        String::from_str("Invalid direction for grid resize."),
                    ),
                );
            },
        }
        Ok(())
    }
}

/// The cell at offset `(dx, dy)` from `p` with its character, where that cell exists.
pub open spec fn neighbor_at(board: Seq<Seq<char>>, p: Position, dx: int, dy: int) -> Option<
    (Position, char),
> {
    let nx = p.x + dx;
    let ny = p.y + dy;
    if 0 <= nx <= usize::MAX && 0 <= ny <= usize::MAX {
        match cell(board, nx, ny) {
            Some(ch) => Some((Position { x: nx as usize, y: ny as usize }, ch)),
            None => None,
        }
    } else {
        None
    }
}

impl<'a> Grid<'a> {
    /// Grows the board so that all of `word` fits along its direction, and moves `word` with
    /// its letters when the board grows at the low edge.
    pub fn ensure_grid_size(&mut self, word: &mut Word<'a>) -> (r: Result<(), GridError>)
        requires
            old(self)@.wf(),
            along(old(word).position, old(word).direction) + old(word)@.prefix.len()
                + old(word)@.suffix.len() + 1 <= usize::MAX,
        ensures
            final(self)@.wf(),
            final(word).segment == old(word).segment,
            final(word).origin == old(word).origin,
            final(word).direction == old(word).direction,
            ({
                let w = old(word)@;
                let fails = w.direction == Direction::NotSet && (GridView::prefix_deficit(w) > 0
                    || old(self)@.suffix_deficit(w) > 0);
                &&& fails ==> {
                    &&& r matches Err(GridError::InvalidDirection(_))
                    &&& final(self)@ == old(self)@
                    &&& final(word)@ == w
                }
                &&& !fails ==> {
                    &&& r is Ok
                    &&& final(self)@ == old(self)@.ensured(w)
                    &&& final(word)@ == GridView::moved(w)
                }
            }),
    {
        let ghost g = self@;
        let ghost w0 = word@;
        let plen = word.segment.prefix.unicode_len();
        let slen = word.segment.suffix.unicode_len();
        let is_h = word.direction == Direction::Horizontal;
        let a = if is_h {
            word.position.x
        } else {
            word.position.y
        };
        if a < plen {
            let deficit = plen - a;
            match self.resize_grid(deficit, word.direction, true) {
                Err(e) => {
                    return Err(e);
                },
                Ok(()) => {},
            }
            if is_h {
                word.position.x = word.position.x + deficit;
            } else {
                word.position.y = word.position.y + deficit;
            }
        }
        assert(word@ == GridView::moved(w0));
        assert(self@ == g.resized(GridView::prefix_deficit(w0), w0.direction, true));
        let a1 = if is_h {
            word.position.x
        } else {
            word.position.y
        };
        let need = a1 + slen + 1;
        let extent = if is_h {
            self.board[0].len()
        } else {
            self.board.len()
        };
        if extent < need {
            match self.resize_grid(need - extent, word.direction, false) {
                Err(e) => {
                    return Err(e);
                },
                Ok(()) => {},
            }
        }
        Ok(())
    }

    /// Writes the characters of `word` from its origin along its direction.
    pub fn fill_word(&mut self, word: &Word<'a>) -> (r: Result<(), GridError>)
        requires
            old(self)@.wf(),
            word.direction == Direction::Horizontal ==> word.position.y < old(self)@.height()
                && word.origin.x + word@.full().len() <= old(self)@.width(),
            word.direction == Direction::Vertical ==> word.position.x < old(self)@.width()
                && word.origin.y + word@.full().len() <= old(self)@.height(),
        ensures
            final(self)@.wf(),
            word.direction == Direction::NotSet ==> {
                &&& r matches Err(GridError::InvalidDirection(_))
                &&& final(self)@ == old(self)@
            },
            word.direction != Direction::NotSet ==> {
                &&& r is Ok
                &&& final(self)@ == old(self)@.filled(word@, word@.full().len() as int)
            },
    {
        let ghost g = self@;
        if word.direction == Direction::NotSet {
            return Err(
                GridError::InvalidDirection(String::from_str("Invalid direction for filling word.")),
            );
        }
        let full = word.segment.full_word();
        let mut k: usize = 0;
        assert forall|r: int| 0 <= r < g.board.len() implies #[trigger] self@.board[r]
            =~= g.filled(word@, 0).board[r] by {}
        assert(self@.board =~= g.filled(word@, 0).board);
        assert(self@.words =~= g.filled(word@, 0).words);
        while k < full.len()
            invariant
                g.wf(),
                full@ == word@.full(),
                word.direction != Direction::NotSet,
                word.direction == Direction::Horizontal ==> word.position.y < g.height()
                    && word.origin.x + full@.len() <= g.width(),
                word.direction == Direction::Vertical ==> word.position.x < g.width()
                    && word.origin.y + full@.len() <= g.height(),
                k <= full.len(),
                self@ == g.filled(word@, k as int),
            decreases full.len() - k,
        {
            let ghost before = self@;
            assert(self@.board.len() == g.filled(word@, k as int).board.len());
            if word.direction == Direction::Horizontal {
                let y = word.position.y;
                assert(g.board[y as int].len() == g.width());
                assert(self@.board[y as int].len() == g.board[y as int].len());
                // The row's length, a usize, bounds the column reached.
                let _ = self.board[y].len();
                let x = word.origin.x + k;
                self.board[y][x] = full[k];
                assert forall|r: int| 0 <= r < g.board.len() implies #[trigger] self@.board[r]
                    =~= g.filled(word@, k + 1).board[r] by {
                    if r != y {
                        assert(self@.board[r] == before.board[r]);
                    }
                }
            } else {
                let x = word.position.x;
                // The number of rows, a usize, bounds the row reached.
                let _ = self.board.len();
                let y = word.origin.y + k;
                assert(g.board[y as int].len() == g.width());
                assert(self@.board[y as int].len() == g.board[y as int].len());
                self.board[y][x] = full[k];
                assert forall|r: int| 0 <= r < g.board.len() implies #[trigger] self@.board[r]
                    =~= g.filled(word@, k + 1).board[r] by {
                    if r != y {
                        assert(self@.board[r] == before.board[r]);
                    }
                }
            }
            assert(self@.words =~= g.filled(word@, k + 1).words);
            assert(self@.board =~= g.filled(word@, k + 1).board);
            k = k + 1;
        }
        Ok(())
    }

    /// Commits `word`: grows the board to fit it, writes it, appends it to the placed words,
    /// and recomputes every placed word's origin. Validation is the caller's business.
    pub fn add_word(&mut self, word: Word<'a>) -> (r: Result<(), GridError>)
        requires
            old(self)@.wf(),
            along(word.position, word.direction) + word@.prefix.len() + word@.suffix.len() + 1
                <= usize::MAX,
            word.direction != Direction::NotSet ==> across(word.position, word.direction) < old(
                self,
            )@.breadth(word.direction),
        ensures
            final(self)@.wf(),
            word.direction == Direction::NotSet ==> {
                &&& r matches Err(GridError::InvalidDirection(_))
                &&& final(self)@ == old(self)@
            },
            word.direction != Direction::NotSet ==> {
                &&& r is Ok
                &&& final(self)@ == old(self)@.added(word@)
            },
    {
        let ghost g = self@;
        let mut word = word;
        match self.ensure_grid_size(&mut word) {
            Err(e) => {
                return Err(e);
            },
            Ok(()) => {},
        }
        word.update_position();
        match self.fill_word(&word) {
            Err(e) => {
                return Err(e);
            },
            Ok(()) => {},
        }
        let ghost g3 = self@;
        self.words.push(word);
        let mut i: usize = 0;
        while i < self.words.len()
            invariant
                g3.wf(),
                self@.board == g3.board,
                self@.words.len() == g3.words.len() + 1,
                i <= self.words.len(),
                forall|j: int|
                    0 <= j < i ==> #[trigger] self@.words[j] == g3.words.push(
                        word@,
                    )[j].with_origin_updated(),
                forall|j: int|
                    i <= j < self.words.len() ==> #[trigger] self@.words[j] == g3.words.push(
                        word@,
                    )[j],
            decreases self.words.len() - i,
        {
            let ghost prev = self.words@;
            let ghost prev_view = self@.words;
            let mut w = self.words[i];
            assert(w@ == self@.words[i as int]);
            assert(w@ == g3.words.push(word@)[i as int]);
            w.update_position();
            assert(w@ == g3.words.push(word@)[i as int].with_origin_updated());
            self.words[i] = w;
            assert(self.words@ == prev.update(i as int, w));
            assert forall|j: int| 0 <= j < self.words.len() implies #[trigger] self@.words[j] == (
            if j <= i {
                g3.words.push(word@)[j].with_origin_updated()
            } else {
                g3.words.push(word@)[j]
            }) by {
                if j != i {
                    assert(self@.words[j] == prev[j]@);
                    assert(prev_view[j] == prev[j]@);
                } else {
                    assert(self@.words[j] == w@);
                }
            }
            i = i + 1;
        }
        assert(self@.words =~= g3.words.push(word@).map_values(
            |v: WordView| v.with_origin_updated(),
        ));
        Ok(())
    }

    /// The character at `position`, if that cell exists.
    pub fn get_char(&self, position: Position) -> (r: Option<char>)
        ensures
            r == cell(self@.board, position.x as int, position.y as int),
    {
        if position.y < self.board.len() {
            let row = &self.board[position.y];
            if position.x < row.len() {
                return Some(row[position.x]);
            }
        }
        None
    }

    /// The cell at offset `(dx, dy)` from `current_pos`, with its character, if it exists.
    pub fn get_neighbor_at_offset(&self, current_pos: Position, dx: isize, dy: isize) -> (r: Option<
        (Position, char),
    >)
        ensures
            r == neighbor_at(self@.board, current_pos, dx as int, dy as int),
    {
        match (current_pos.x.checked_add_signed(dx), current_pos.y.checked_add_signed(dy)) {
            (Some(x), Some(y)) => {
                let new_pos = Position { x, y };
                match self.get_char(new_pos) {
                    Some(ch) => Some((new_pos, ch)),
                    None => None,
                }
            },
            _ => None,
        }
    }

    /// The four cells next to `position`.
    pub fn get_neighbor(&self, position: Position) -> (r: Neighbor)
        ensures
            r.up == neighbor_at(self@.board, position, 0, -1),
            r.right == neighbor_at(self@.board, position, 1, 0),
            r.down == neighbor_at(self@.board, position, 0, 1),
            r.left == neighbor_at(self@.board, position, -1, 0),
    {
        Neighbor {
            up: self.get_neighbor_at_offset(position, 0, -1),
            right: self.get_neighbor_at_offset(position, 1, 0),
            down: self.get_neighbor_at_offset(position, 0, 1),
            left: self.get_neighbor_at_offset(position, -1, 0),
        }
    }

    /// The cell `step` cells away from `current_pos` along `direction`, the coordinate
    /// wrapping around the range of `usize`.
    pub fn get_next_pos(&self, current_pos: Position, direction: Direction, step: isize) -> (r:
        Result<Position, GridError>)
        ensures
            direction == Direction::NotSet ==> r matches Err(GridError::InvalidDirection(_)),
            direction == Direction::Horizontal ==> r == Ok::<Position, GridError>(
                Position {
                    x: vstd::wrapping::usize_specs::wrapping_add_signed(current_pos.x, step),
                    y: current_pos.y,
                },
            ),
            direction == Direction::Vertical ==> r == Ok::<Position, GridError>(
                Position {
                    x: current_pos.x,
                    y: vstd::wrapping::usize_specs::wrapping_add_signed(current_pos.y, step),
                },
            ),
    {
        match direction {
            Direction::Horizontal => Ok(
                Position { x: current_pos.x.wrapping_add_signed(step), y: current_pos.y },
            ),
            Direction::Vertical => Ok(
                Position { x: current_pos.x, y: current_pos.y.wrapping_add_signed(step) },
            ),
            Direction::NotSet => Err(GridError::InvalidDirection(String::from_str("Invalid direction"))),
        }
    }

    /// The coordinate of `current_pos` along `direction`.
    pub fn get_coord_val(&self, current_pos: Position, direction: Direction) -> (r: Result<
        usize,
        GridError,
    >)
        ensures
            direction == Direction::NotSet ==> r matches Err(GridError::InvalidDirection(_)),
            direction != Direction::NotSet ==> r == Ok::<usize, GridError>(
                along(current_pos, direction) as usize,
            ),
    {
        match direction {
            Direction::Horizontal => Ok(current_pos.x),
            Direction::Vertical => Ok(current_pos.y),
            Direction::NotSet => Err(GridError::InvalidDirection(String::from_str("Invalid direction"))),
        }
    }

    /// Whether a looked-up neighbour is missing or blank.
    pub fn is_char_empty_or_none(&self, char_option: Option<(Position, char)>) -> (r: bool)
        ensures
            r == match char_option {
                Some((_, ch)) => ch == BLANK,
                None => true,
            },
    {
        match char_option {
            Some((_, ch)) => ch == BLANK,
            None => true,
        }
    }

    /// Whether both neighbours of `current_pos` across `direction` are missing or blank.
    pub fn is_neighbor_cell_empty(&self, current_pos: Position, direction: Direction) -> (r: Result<
        bool,
        GridError,
    >)
        ensures
            direction == Direction::NotSet ==> r matches Err(GridError::InvalidDirection(_)),
            direction != Direction::NotSet ==> r == Ok::<bool, GridError>(
                perpendicular_empty(
                    self@.board,
                    current_pos.x as int,
                    current_pos.y as int,
                    direction,
                ),
            ),
    {
        let neighbor = self.get_neighbor(current_pos);
        match direction {
            Direction::Horizontal => Ok(
                self.is_char_empty_or_none(neighbor.up) && self.is_char_empty_or_none(neighbor.down),
            ),
            Direction::Vertical => Ok(
                self.is_char_empty_or_none(neighbor.left) && self.is_char_empty_or_none(
                    neighbor.right,
                ),
            ),
            Direction::NotSet => Err(GridError::InvalidDirection(String::from_str("Invalid direction"))),
        }
    }
}

/// The cell on the line of `p` at coordinate `a` along `d`.
pub open spec fn point(p: Position, d: Direction, a: int) -> (int, int) {
    if d == Direction::Horizontal {
        (a, p.y as int)
    } else {
        (p.x as int, a)
    }
}

/// The cell at coordinate `a` along `d` is missing or blank.
pub open spec fn end_clear(board: Seq<Seq<char>>, p: Position, d: Direction, a: int) -> bool {
    empty_or_none(cell_along(board, p, d, a))
}

/// Whether `chars` can be laid from coordinate `a + step` on, one cell per `step` along `d`:
/// a cell holding the same character is shared; a cell holding another letter refuses; a
/// blank cell needs both neighbours across `d` empty, and at coordinate zero ends the scan.
/// Once the characters run out, or the line leaves the board, the next cell must be clear.
pub open spec fn scan_fits(
    board: Seq<Seq<char>>,
    p: Position,
    d: Direction,
    a: int,
    chars: Seq<char>,
    step: int,
) -> bool
    decreases chars.len(),
{
    if chars.len() == 0 {
        end_clear(board, p, d, a + step)
    } else {
        let a1 = a + step;
        match cell_along(board, p, d, a1) {
            None => end_clear(board, p, d, a1 + step),
            Some(c) => if c == chars[0] {
                scan_fits(board, p, d, a1, chars.drop_first(), step)
            } else if c != BLANK {
                false
            } else if !perpendicular_empty(board, point(p, d, a1).0, point(p, d, a1).1, d) {
                false
            } else if a1 != 0 {
                scan_fits(board, p, d, a1, chars.drop_first(), step)
            } else {
                end_clear(board, p, d, a1 + step)
            },
        }
    }
}

/// Whether `w` fits on `board` around its crossing cell: the prefix scanned backward and the
/// suffix forward from its position.
pub open spec fn valid_placement(board: Seq<Seq<char>>, w: WordView) -> bool {
    &&& scan_fits(board, w.position, w.direction, along(w.position, w.direction), w.prefix.reverse(), -1)
    &&& scan_fits(board, w.position, w.direction, along(w.position, w.direction), w.suffix, 1)
}

/// A fresh candidate word, not yet placed: origin at the corner.
pub open spec fn candidate(
    prefix: Seq<char>,
    crossed: char,
    suffix: Seq<char>,
    position: Position,
    d: Direction,
) -> WordView {
    WordView { prefix, crossed, suffix, position, origin: Position { x: 0, y: 0 }, direction: d }
}

/// The cell where a word running in `d` crosses the perpendicular word `w` at coordinate
/// `index` along `w`.
pub open spec fn crossing_position(w: WordView, d: Direction, index: int) -> Position {
    if d == Direction::Horizontal {
        Position { x: w.position.x, y: index as usize }
    } else {
        Position { x: index as usize, y: w.position.y }
    }
}

/// Candidates crossing `w` at one of its first `n` characters that equals `crossed`.
pub open spec fn word_candidates(
    board: Seq<Seq<char>>,
    w: WordView,
    prefix: Seq<char>,
    crossed: char,
    suffix: Seq<char>,
    d: Direction,
    n: int,
) -> Seq<WordView>
    decreases n,
{
    if n <= 0 {
        Seq::empty()
    } else {
        let prev = word_candidates(board, w, prefix, crossed, suffix, d, n - 1);
        let index = along(w.origin, d.opposite()) + n - 1;
        let c = candidate(prefix, crossed, suffix, crossing_position(w, d, index), d);
        if w.full()[n - 1] == crossed && index <= usize::MAX && valid_placement(board, c) {
            prev.push(c)
        } else {
            prev
        }
    }
}

/// Candidates crossing any of the first `k` placed words that runs across `d`.
pub open spec fn segment_candidates(
    g: GridView,
    prefix: Seq<char>,
    crossed: char,
    suffix: Seq<char>,
    d: Direction,
    k: int,
) -> Seq<WordView>
    decreases k,
{
    if k <= 0 {
        Seq::empty()
    } else {
        let prev = segment_candidates(g, prefix, crossed, suffix, d, k - 1);
        let w = g.words[k - 1];
        if w.direction == d.opposite() {
            prev + word_candidates(g.board, w, prefix, crossed, suffix, d, w.full().len() as int)
        } else {
            prev
        }
    }
}

/// Among the first `k` placed words, some word running across `d` holds `crossed` at a
/// coordinate in range.
pub open spec fn crossing_before(g: GridView, crossed: char, d: Direction, k: int) -> bool {
    exists|i: int, j: int|
        0 <= i < k && i < g.words.len() && 0 <= j < g.words[i].full().len()
            && g.words[i].direction == d.opposite() && #[trigger] g.words[i].full()[j] == crossed
            && along(g.words[i].origin, d.opposite()) + j <= usize::MAX
}

/// Some placed word running across `d` holds `crossed` at a coordinate in range.
pub open spec fn has_crossing(g: GridView, crossed: char, d: Direction) -> bool {
    crossing_before(g, crossed, d, g.words.len() as int)
}

/// The models of a sequence of words.
pub open spec fn views<'a>(ws: Seq<Word<'a>>) -> Seq<WordView> {
    ws.map_values(|w: Word<'a>| w@)
}

/// What placing the segment `(prefix, crossed, suffix)` along `d` yields: its candidates, or
/// the segment's own error where a crossing would have to build it.
pub open spec fn segment_outcome(
    g: GridView,
    prefix: Seq<char>,
    crossed: char,
    suffix: Seq<char>,
    d: Direction,
) -> Result<Seq<WordView>, WordError> {
    match segment_error(prefix, crossed, suffix) {
        None => Ok(segment_candidates(g, prefix, crossed, suffix, d, g.words.len() as int)),
        Some(e) => if has_crossing(g, crossed, d) {
            Err(e)
        } else {
            Ok(Seq::empty())
        },
    }
}

/// The two placements of a first word: at the corner, horizontal then vertical.
pub open spec fn initial_outcome(prefix: Seq<char>, crossed: char, suffix: Seq<char>) -> Result<
    Seq<WordView>,
    WordError,
> {
    match segment_error(prefix, crossed, suffix) {
        None => Ok(
            seq![
                candidate(prefix, crossed, suffix, Position { x: 0, y: 0 }, Direction::Horizontal),
                candidate(prefix, crossed, suffix, Position { x: 0, y: 0 }, Direction::Vertical),
            ],
        ),
        Some(e) => Err(e),
    }
}

/// The candidates for `s` split at its character `i`.
pub open spec fn split_outcome(g: GridView, s: Seq<char>, i: int) -> Result<Seq<WordView>, WordError> {
    let prefix = s.subrange(0, i);
    let crossed = s[i];
    let suffix = s.subrange(i + 1, s.len() as int);
    if g.words.len() == 0 {
        initial_outcome(prefix, crossed, suffix)
    } else {
        match segment_outcome(g, prefix, crossed, suffix, Direction::Horizontal) {
            Err(e) => Err(e),
            Ok(h) => match segment_outcome(g, prefix, crossed, suffix, Direction::Vertical) {
                Err(e) => Err(e),
                Ok(v) => Ok(h + v),
            },
        }
    }
}

/// The candidates for `s` split at each of its first `n` characters in turn.
pub open spec fn placements_upto(g: GridView, s: Seq<char>, n: int) -> Result<Seq<WordView>, WordError>
    decreases n,
{
    if n <= 0 {
        Ok(Seq::empty())
    } else {
        match placements_upto(g, s, n - 1) {
            Err(e) => Err(e),
            Ok(prev) => match split_outcome(g, s, n - 1) {
                Err(e) => Err(e),
                Ok(c) => Ok(prev + c),
            },
        }
    }
}

/// Once a split fails, the search over later splits reports that same failure.
proof fn lemma_placements_error_persists(g: GridView, s: Seq<char>, k: int, n: int)
    requires
        0 <= k <= n,
        placements_upto(g, s, k) is Err,
    ensures
        placements_upto(g, s, n) == placements_upto(g, s, k),
    decreases n - k,
{
    if k < n {
        lemma_placements_error_persists(g, s, k, n - 1);
    }
}

/// Every legal placement of `s` on `g`, in the order in which they are found.
pub open spec fn placements(g: GridView, s: Seq<char>) -> Result<Seq<WordView>, WordError> {
    placements_upto(g, s, s.len() as int)
}

/// The characters of `s` in reverse order.
fn reversed_chars(s: &str) -> (r: Vec<char>)
    ensures
        r@ == s@.reverse(),
{
    let n = s.unicode_len();
    let mut out: Vec<char> = Vec::new();
    let mut i: usize = n;
    while i > 0
        invariant
            n == s@.len(),
            i <= n,
            out@ == s@.subrange(i as int, n as int).reverse(),
        decreases i,
    {
        i = i - 1;
        out.push(s.get_char(i));
        assert(out@ =~= s@.subrange(i as int, n as int).reverse());
    }
    assert(s@.subrange(0, n as int) =~= s@);
    out
}

/// The characters of `s` in order.
fn chars_of(s: &str) -> (r: Vec<char>)
    ensures
        r@ == s@,
{
    let n = s.unicode_len();
    let mut out: Vec<char> = Vec::new();
    let mut i: usize = 0;
    while i < n
        invariant
            n == s@.len(),
            i <= n,
            out@ == s@.subrange(0, i as int),
        decreases n - i,
    {
        out.push(s.get_char(i));
        i = i + 1;
        assert(out@ =~= s@.subrange(0, i as int));
    }
    assert(s@.subrange(0, n as int) =~= s@);
    out
}

/// The position on the line of `p` at coordinate `a` along `d`.
fn position_along(p: Position, d: Direction, a: usize) -> (r: Position)
    ensures
        r.x == point(p, d, a as int).0,
        r.y == point(p, d, a as int).1,
{
    if d == Direction::Horizontal {
        Position { x: a, y: p.y }
    } else {
        Position { x: p.x, y: a }
    }
}

impl<'a> Grid<'a> {
    /// Scans `chars` from `start`, one cell per `step` along the direction of `word`, and
    /// reports whether they can be laid there (see `scan_fits`).
    pub fn check_segment_placement(
        &self,
        word: &Word<'a>,
        start: Position,
        chars: &Vec<char>,
        step: isize,
    ) -> (r: Result<bool, GridError>)
        ensures
            word.direction == Direction::NotSet ==> r matches Err(GridError::InvalidDirection(_)),
            word.direction != Direction::NotSet ==> r == Ok::<bool, GridError>(
                scan_fits(
                    self@.board,
                    start,
                    word.direction,
                    along(start, word.direction),
                    chars@,
                    step as int,
                ),
            ),
    {
        let d = word.direction;
        if d == Direction::NotSet {
            return Err(GridError::InvalidDirection(String::from_str("Invalid direction")));
        }
        let ghost b = self@.board;
        let ghost target = scan_fits(b, start, d, along(start, d), chars@, step as int);
        let mut a: usize = if d == Direction::Horizontal {
            start.x
        } else {
            start.y
        };
        let mut i: usize = 0;
        assert(chars@.subrange(0, chars@.len() as int) =~= chars@);
        while i < chars.len()
            invariant
                b == self@.board,
                d != Direction::NotSet,
                d == word.direction,
                i <= chars.len(),
                target == scan_fits(b, start, d, along(start, d), chars@, step as int),
                target == scan_fits(
                    b,
                    start,
                    d,
                    a as int,
                    chars@.subrange(i as int, chars@.len() as int),
                    step as int,
                ),
            decreases chars.len() - i,
        {
            let ghost rest = chars@.subrange(i as int, chars@.len() as int);
            assert(rest.drop_first() =~= chars@.subrange(i + 1, chars@.len() as int));
            assert(rest[0] == chars@[i as int]);
            let next = match a.checked_add_signed(step) {
                Some(n) => n,
                None => {
                    assert(cell_along(b, start, d, a + step) is None);
                    assert(cell_along(b, start, d, a + step + step) is None);
                    return Ok(true);
                },
            };
            let pos = position_along(start, d, next);
            assert(cell_along(b, start, d, next as int) == cell(b, pos.x as int, pos.y as int));
            match self.get_char(pos) {
                None => {
                    return Ok(self.end_check(start, d, next, step));
                },
                Some(board_ch) => {
                    if board_ch == chars[i] {
                        a = next;
                        i = i + 1;
                        continue ;
                    }
                    if board_ch != BLANK {
                        return Ok(false);
                    }
                    match self.is_neighbor_cell_empty(pos, d) {
                        Ok(true) => {},
                        _ => {
                            return Ok(false);
                        },
                    }
                    if next != 0 {
                        a = next;
                        i = i + 1;
                        continue ;
                    }
                    return Ok(self.end_check(start, d, next, step));
                },
            }
        }
        Ok(self.end_check(start, d, a, step))
    }

    /// Whether the cell one `step` past coordinate `a` on the line of `start` is clear.
    fn end_check(&self, start: Position, d: Direction, a: usize, step: isize) -> (r: bool)
        ensures
            r == end_clear(self@.board, start, d, a + step),
    {
        match a.checked_add_signed(step) {
            None => true,
            Some(e) => match self.get_char(position_along(start, d, e)) {
                Some(board_ch) => board_ch == BLANK,
                None => true,
            },
        }
    }

    /// Whether `word` fits around its crossing cell: prefix scanned backward, suffix forward.
    pub fn is_valid_placement(&self, word: &Word<'a>) -> (r: Result<bool, GridError>)
        ensures
            word.direction == Direction::NotSet ==> r matches Err(GridError::InvalidDirection(_)),
            word.direction != Direction::NotSet ==> r == Ok::<bool, GridError>(
                valid_placement(self@.board, word@),
            ),
    {
        let prefix = reversed_chars(word.segment.prefix);
        match self.check_segment_placement(word, word.position, &prefix, -1) {
            Err(e) => {
                return Err(e);
            },
            Ok(false) => {
                return Ok(false);
            },
            Ok(true) => {},
        }
        let suffix = chars_of(word.segment.suffix);
        self.check_segment_placement(word, word.position, &suffix, 1)
    }
}

impl<'a> Grid<'a> {
    /// Every placement of the segment along `direction` that crosses a placed word running the
    /// other way at a cell holding `crossed`, and passes `is_valid_placement`.
    pub fn find_valid_placements_for_segment(
        &self,
        prefix: &'a str,
        crossed: char,
        suffix: &'a str,
        direction: Direction,
    ) -> (r: Result<Vec<Word<'a>>, GridError>)
        ensures
            direction == Direction::NotSet ==> r matches Err(GridError::InvalidDirection(_)),
            direction != Direction::NotSet ==> match segment_outcome(
                self@,
                prefix@,
                crossed,
                suffix@,
                direction,
            ) {
                Ok(c) => r is Ok && views(r->Ok_0@) == c,
                Err(e) => r == Err::<Vec<Word<'a>>, GridError>(GridError::WordError(e)),
            },
    {
        let opposite = match direction {
            Direction::Horizontal => Direction::Vertical,
            Direction::Vertical => Direction::Horizontal,
            Direction::NotSet => {
                return Err(GridError::InvalidDirection(String::from_str("Invalid direction")));
            },
        };
        let ghost g = self@;
        let ghost seg_ok = segment_error(prefix@, crossed, suffix@) is None;
        let mut placements: Vec<Word<'a>> = Vec::new();
        let mut k: usize = 0;
        while k < self.words.len()
            invariant
                g == self@,
                opposite == direction.opposite(),
                direction != Direction::NotSet,
                seg_ok == (segment_error(prefix@, crossed, suffix@) is None),
                k <= self.words.len(),
                seg_ok ==> views(placements@) == segment_candidates(
                    g,
                    prefix@,
                    crossed,
                    suffix@,
                    direction,
                    k as int,
                ),
                !seg_ok ==> placements@.len() == 0 && !crossing_before(
                    g,
                    crossed,
                    direction,
                    k as int,
                ),
            decreases self.words.len() - k,
        {
            let w = self.words[k];
            assert(w@ == g.words[k as int]);
            if w.direction == opposite {
                let full = w.segment.full_word();
                let start = if direction == Direction::Horizontal {
                    w.origin.y
                } else {
                    w.origin.x
                };
                let mut j: usize = 0;
                while j < full.len()
                    invariant
                        g == self@,
                        w@ == g.words[k as int],
                        k < g.words.len(),
                        w.direction == opposite,
                        opposite == direction.opposite(),
                        direction != Direction::NotSet,
                        full@ == w@.full(),
                        start == along(w.origin, opposite),
                        seg_ok == (segment_error(prefix@, crossed, suffix@) is None),
                        j <= full.len(),
                        seg_ok ==> views(placements@) == segment_candidates(
                            g,
                            prefix@,
                            crossed,
                            suffix@,
                            direction,
                            k as int,
                        ) + word_candidates(g.board, w@, prefix@, crossed, suffix@, direction, j as int),
                        !seg_ok ==> placements@.len() == 0 && !crossing_before(
                            g,
                            crossed,
                            direction,
                            k as int,
                        ) && forall|jj: int|
                            0 <= jj < j ==> !(#[trigger] w@.full()[jj] == crossed && start + jj
                                <= usize::MAX),
                    decreases full.len() - j,
                {
                    if full[j] == crossed {
                        match start.checked_add(j) {
                            None => {},
                            Some(index) => {
                                let (x, y) = if direction == Direction::Horizontal {
                                    (w.position.x, index)
                                } else {
                                    (index, w.position.y)
                                };
                                let new_word = match Word::value(prefix, crossed, suffix) {
                                    Ok(nw) => nw.position(x, y).direction(direction),
                                    Err(e) => {
                                        assert(g.words[k as int].full()[j as int] == crossed);
                                        assert(crossing_before(g, crossed, direction, g.words.len() as int));
                                        return Err(GridError::WordError(e));
                                    },
                                };
                                assert(new_word@ == candidate(
                                    prefix@,
                                    crossed,
                                    suffix@,
                                    crossing_position(w@, direction, index as int),
                                    direction,
                                ));
                                let ghost before = placements@;
                                match self.is_valid_placement(&new_word) {
                                    Ok(true) => {
                                        placements.push(new_word);
                                        assert(views(placements@) =~= views(before).push(
                                            new_word@,
                                        ));
                                    },
                                    _ => {},
                                }
                            },
                        }
                    }
                    proof {
                        if seg_ok {
                            assert(views(placements@) =~= segment_candidates(
                                g,
                                prefix@,
                                crossed,
                                suffix@,
                                direction,
                                k as int,
                            ) + word_candidates(
                                g.board,
                                w@,
                                prefix@,
                                crossed,
                                suffix@,
                                direction,
                                j + 1,
                            ));
                        }
                    }
                    j = j + 1;
                }
                proof {
                    if !seg_ok {
                        assert forall|i: int, jj: int|
                            0 <= i < k + 1 && i < g.words.len() && 0 <= jj < g.words[i].full().len()
                                && g.words[i].direction == direction.opposite()
                                && #[trigger] g.words[i].full()[jj] == crossed implies !(along(
                            g.words[i].origin,
                            direction.opposite(),
                        ) + jj <= usize::MAX) by {
                            if i < k {
                                assert(!crossing_before(g, crossed, direction, k as int));
                            } else {
                                assert(w@.full()[jj] == crossed);
                            }
                        }
                    }
                }
            } else {
                proof {
                    if !seg_ok {
                        assert forall|i: int, jj: int|
                            0 <= i < k + 1 && i < g.words.len() && 0 <= jj < g.words[i].full().len()
                                && g.words[i].direction == direction.opposite()
                                && #[trigger] g.words[i].full()[jj] == crossed implies !(along(
                            g.words[i].origin,
                            direction.opposite(),
                        ) + jj <= usize::MAX) by {
                            if i < k {
                                assert(!crossing_before(g, crossed, direction, k as int));
                            }
                        }
                    }
                }
            }
            proof {
                if seg_ok {
                    assert(views(placements@) =~= segment_candidates(
                        g,
                        prefix@,
                        crossed,
                        suffix@,
                        direction,
                        k + 1,
                    ));
                }
            }
            k = k + 1;
        }
        Ok(placements)
    }

    /// The two placements of the first word: at the corner, horizontal then vertical.
    pub fn handle_initial_placements(&self, prefix: &'a str, crossed: char, suffix: &'a str) -> (r:
        Result<Vec<Word<'a>>, GridError>)
        ensures
            match initial_outcome(prefix@, crossed, suffix@) {
                Ok(c) => r is Ok && views(r->Ok_0@) == c,
                Err(e) => r == Err::<Vec<Word<'a>>, GridError>(GridError::WordError(e)),
            },
    {
        let mut placements: Vec<Word<'a>> = Vec::new();
        let horizontal_word = match Word::value(prefix, crossed, suffix) {
            Ok(w) => w.direction(Direction::Horizontal),
            Err(e) => {
                return Err(GridError::WordError(e));
            },
        };
        placements.push(horizontal_word);
        let vertical_word = match Word::value(prefix, crossed, suffix) {
            Ok(w) => w.direction(Direction::Vertical),
            Err(e) => {
                return Err(GridError::WordError(e));
            },
        };
        placements.push(vertical_word);
        assert(views(placements@) =~= initial_outcome(prefix@, crossed, suffix@)->Ok_0);
        Ok(placements)
    }

    /// Every placement of `word_str`, taking each of its characters in turn as the crossing
    /// one: the two corner placements on a grid without words, else the crossings found in
    /// both directions.
    pub fn find_valid_placements(&self, word_str: &'a str) -> (r: Result<Vec<Word<'a>>, GridError>)
        ensures
            match placements(self@, word_str@) {
                Ok(c) => r is Ok && views(r->Ok_0@) == c,
                Err(e) => r == Err::<Vec<Word<'a>>, GridError>(GridError::WordError(e)),
            },
    {
        let ghost g = self@;
        let ghost s = word_str@;
        let n = word_str.unicode_len();
        let mut placements: Vec<Word<'a>> = Vec::new();
        let mut index: usize = 0;
        while index < n
            invariant
                g == self@,
                s == word_str@,
                n == s.len(),
                index <= n,
                placements_upto(g, s, index as int) is Ok,
                views(placements@) == placements_upto(g, s, index as int)->Ok_0,
            decreases n - index,
        {
            let prefix = word_str.substring_char(0, index);
            let crossed = word_str.get_char(index);
            let suffix = word_str.substring_char(index + 1, n);
            let ghost before = placements@;
            if self.words.len() == 0 {
                match self.handle_initial_placements(prefix, crossed, suffix) {
                    Ok(mut found) => {
                        placements.append(&mut found);
                    },
                    Err(e) => {
                        proof {
                            lemma_placements_error_persists(g, s, index + 1, n as int);
                        }
                        return Err(e);
                    },
                }
            } else {
                match self.find_valid_placements_for_segment(
                    prefix,
                    crossed,
                    suffix,
                    Direction::Horizontal,
                ) {
                    Ok(mut found) => {
                        placements.append(&mut found);
                    },
                    Err(e) => {
                        proof {
                            lemma_placements_error_persists(g, s, index + 1, n as int);
                        }
                        return Err(e);
                    },
                }
                match self.find_valid_placements_for_segment(
                    prefix,
                    crossed,
                    suffix,
                    Direction::Vertical,
                ) {
                    Ok(mut found) => {
                        placements.append(&mut found);
                    },
                    Err(e) => {
                        proof {
                            lemma_placements_error_persists(g, s, index + 1, n as int);
                        }
                        return Err(e);
                    },
                }
            }
            assert(views(placements@) =~= placements_upto(g, s, index + 1)->Ok_0);
            index = index + 1;
        }
        Ok(placements)
    }
}

/// `w` runs along a set direction, its prefix starts at or after the low edge, its last letter
/// lies before the high edge of the board of `g`, and its line crosses the board.
pub open spec fn word_fits(g: GridView, w: WordView) -> bool {
    &&& w.direction != Direction::NotSet
    &&& along(w.position, w.direction) >= w.prefix.len()
    &&& along(w.position, w.direction) + w.suffix.len() + 1 <= g.extent(w.direction)
    &&& across(w.position, w.direction) < g.breadth(w.direction)
}

impl GridView {
    /// Every placed word fits on the board and has its origin up to date.
    pub open spec fn anchored(self) -> bool {
        forall|i: int|
            0 <= i < self.words.len() ==> word_fits(self, #[trigger] self.words[i])
                && self.words[i].origin == self.words[i].computed_origin()
    }
}

/// A candidate for `s` on `g`: the whole of `s`, along a set direction, crossing the board.
pub open spec fn candidate_fits(g: GridView, c: WordView, s: Seq<char>) -> bool {
    &&& c.full() == s
    &&& c.direction != Direction::NotSet
    &&& across(c.position, c.direction) < g.breadth(c.direction)
    &&& along(c.position, c.direction) < g.extent(c.direction)
}

/// `c` crosses the placed word `w` of `g` at its character `j`.
pub open spec fn crosses_at(g: GridView, c: WordView, w: WordView, j: int) -> bool {
    &&& w.direction == c.direction.opposite()
    &&& 0 <= j < w.full().len()
    &&& w.full()[j] == c.crossed
    &&& c.position == crossing_position(w, c.direction, along(w.origin, c.direction.opposite()) + j)
}

/// How `c` was found on `g`: at the corner of a grid without words, else crossing a placed
/// word and passing the validation scan.
pub open spec fn candidate_checked(g: GridView, c: WordView) -> bool {
    &&& g.words.len() == 0 ==> c.position == Position { x: 0, y: 0 }
    &&& g.words.len() > 0 ==> {
        &&& valid_placement(g.board, c)
        &&& exists|i: int, j: int| 0 <= i < g.words.len() && #[trigger] crosses_at(g, c, g.words[i], j)
    }
}

/// The candidates crossing one placed word fit the board and were found by the rules.
proof fn lemma_word_candidates_fit(
    g: GridView,
    wi: int,
    w: WordView,
    prefix: Seq<char>,
    crossed: char,
    suffix: Seq<char>,
    d: Direction,
    n: int,
)
    requires
        g.wf(),
        word_fits(g, w),
        w.origin == w.computed_origin(),
        w.direction == d.opposite(),
        d != Direction::NotSet,
        n <= w.full().len(),
        0 <= wi < g.words.len(),
        g.words[wi] == w,
    ensures
        forall|k: int|
            0 <= k < word_candidates(g.board, w, prefix, crossed, suffix, d, n).len() ==> candidate_fits(
                g,
                #[trigger] word_candidates(g.board, w, prefix, crossed, suffix, d, n)[k],
                prefix + seq![crossed] + suffix,
            ) && candidate_checked(g, word_candidates(g.board, w, prefix, crossed, suffix, d, n)[k]),
    decreases n,
{
    if n > 0 {
        lemma_word_candidates_fit(g, wi, w, prefix, crossed, suffix, d, n - 1);
        let index = along(w.origin, d.opposite()) + n - 1;
        let c = candidate(prefix, crossed, suffix, crossing_position(w, d, index), d);
        assert(w.full().len() == w.prefix.len() + 1 + w.suffix.len());
        if index <= usize::MAX {
            assert(across(c.position, d) == index);
            assert(along(c.position, d) == across(w.position, w.direction));
            assert(candidate_fits(g, c, prefix + seq![crossed] + suffix));
            if w.full()[n - 1] == crossed {
                assert(crosses_at(g, c, g.words[wi], n - 1));
            }
        }
        let prev = word_candidates(g.board, w, prefix, crossed, suffix, d, n - 1);
        let cur = word_candidates(g.board, w, prefix, crossed, suffix, d, n);
        assert forall|k: int| 0 <= k < cur.len() implies candidate_fits(
            g,
            #[trigger] cur[k],
            prefix + seq![crossed] + suffix,
        ) && candidate_checked(g, cur[k]) by {
            if k < prev.len() {
                assert(cur[k] == prev[k]);
            }
        }
    }
}

/// The candidates for one segment fit the board and were found by the rules.
proof fn lemma_segment_candidates_fit(
    g: GridView,
    prefix: Seq<char>,
    crossed: char,
    suffix: Seq<char>,
    d: Direction,
    k: int,
)
    requires
        g.wf(),
        g.anchored(),
        d != Direction::NotSet,
        k <= g.words.len(),
    ensures
        forall|m: int|
            0 <= m < segment_candidates(g, prefix, crossed, suffix, d, k).len() ==> candidate_fits(
                g,
                #[trigger] segment_candidates(g, prefix, crossed, suffix, d, k)[m],
                prefix + seq![crossed] + suffix,
            ) && candidate_checked(g, segment_candidates(g, prefix, crossed, suffix, d, k)[m]),
    decreases k,
{
    if k > 0 {
        lemma_segment_candidates_fit(g, prefix, crossed, suffix, d, k - 1);
        let w = g.words[k - 1];
        if w.direction == d.opposite() {
            lemma_word_candidates_fit(g, k - 1, w, prefix, crossed, suffix, d, w.full().len() as int);
            let a = segment_candidates(g, prefix, crossed, suffix, d, k - 1);
            let b = word_candidates(g.board, w, prefix, crossed, suffix, d, w.full().len() as int);
            assert(segment_candidates(g, prefix, crossed, suffix, d, k) == a + b);
            assert forall|m: int| 0 <= m < (a + b).len() implies candidate_fits(
                g,
                #[trigger] (a + b)[m],
                prefix + seq![crossed] + suffix,
            ) && candidate_checked(g, (a + b)[m]) by {
                if m >= a.len() {
                    assert((a + b)[m] == b[m - a.len()]);
                }
            }
        } else {
            assert(segment_candidates(g, prefix, crossed, suffix, d, k) == segment_candidates(
                g,
                prefix,
                crossed,
                suffix,
                d,
                k - 1,
            ));
        }
    }
}

/// The candidates for the first `n` splits fit the board and were found by the rules.
proof fn lemma_placements_upto_fit(g: GridView, s: Seq<char>, n: int)
    requires
        g.wf(),
        g.anchored(),
        n <= s.len(),
        placements_upto(g, s, n) is Ok,
    ensures
        forall|m: int|
            0 <= m < placements_upto(g, s, n)->Ok_0.len() ==> candidate_fits(
                g,
                #[trigger] placements_upto(g, s, n)->Ok_0[m],
                s,
            ) && candidate_checked(g, placements_upto(g, s, n)->Ok_0[m]),
    decreases n,
{
    if n > 0 {
        lemma_placements_upto_fit(g, s, n - 1);
        let i = n - 1;
        let prefix = s.subrange(0, i);
        let crossed = s[i];
        let suffix = s.subrange(i + 1, s.len() as int);
        assert(prefix + seq![crossed] + suffix =~= s);
        lemma_segment_candidates_fit(g, prefix, crossed, suffix, Direction::Horizontal, g.words.len() as int);
        lemma_segment_candidates_fit(g, prefix, crossed, suffix, Direction::Vertical, g.words.len() as int);
        let a = placements_upto(g, s, n - 1)->Ok_0;
        let b = split_outcome(g, s, i)->Ok_0;
        if g.words.len() > 0 {
            let h = segment_outcome(g, prefix, crossed, suffix, Direction::Horizontal)->Ok_0;
            let v = segment_outcome(g, prefix, crossed, suffix, Direction::Vertical)->Ok_0;
            assert forall|m: int| 0 <= m < (h + v).len() implies candidate_fits(
                g,
                #[trigger] (h + v)[m],
                s,
            ) && candidate_checked(g, (h + v)[m]) by {
                if m >= h.len() {
                    assert((h + v)[m] == v[m - h.len()]);
                }
            }
        }
        assert forall|m: int| 0 <= m < (a + b).len() implies candidate_fits(
            g,
            #[trigger] (a + b)[m],
            s,
        ) && candidate_checked(g, (a + b)[m]) by {
            if m >= a.len() {
                assert((a + b)[m] == b[m - a.len()]);
            }
        }
    }
}

/// Each placement found for `s` on an anchored grid is the whole of `s`, along a set
/// direction, with its crossing cell on the board; on a grid with words it crosses a placed
/// word and passed the validation scan.
pub proof fn lemma_placements_fit(g: GridView, s: Seq<char>)
    requires
        g.wf(),
        g.anchored(),
        placements(g, s) is Ok,
    ensures
        forall|m: int|
            0 <= m < placements(g, s)->Ok_0.len() ==> candidate_fits(
                g,
                #[trigger] placements(g, s)->Ok_0[m],
                s,
            ) && candidate_checked(g, placements(g, s)->Ok_0[m]),
{
    lemma_placements_upto_fit(g, s, s.len() as int);
}

/// Growing the board keeps every placed word fitting, moved along when prepending.
pub proof fn lemma_resized_fits(g: GridView, amount: nat, d: Direction, prepend: bool)
    requires
        g.board.len() >= 1,
        forall|i: int| 0 <= i < g.words.len() ==> word_fits(g, #[trigger] g.words[i]),
        d != Direction::NotSet,
        g.extent(d) + amount <= usize::MAX,
        g.breadth(d) <= usize::MAX,
    ensures
        ({
            let h = g.resized(amount, d, prepend);
            &&& h.board.len() >= 1
            &&& h.extent(d) == g.extent(d) + amount
            &&& h.breadth(d) == g.breadth(d)
            &&& h.words.len() == g.words.len()
            &&& forall|i: int| 0 <= i < h.words.len() ==> word_fits(h, #[trigger] h.words[i])
            &&& forall|i: int|
                0 <= i < h.words.len() ==> (#[trigger] h.words[i]).with_origin_updated()
                    == (if prepend {
                    GridView::moved_by(g.words[i], amount, d)
                } else {
                    g.words[i]
                }).with_origin_updated()
        }),
{
    let h = g.resized(amount, d, prepend);
    if amount > 0 {
        if d == Direction::Horizontal {
            assert(h.board[0].len() == g.board[0].len() + amount);
            assert(h.width() == g.width() + amount);
            assert(h.height() == g.height());
        } else {
            if prepend {
                assert(h.board[0] == blanks(g.width() as nat));
            } else {
                assert(h.board[0] == g.board[0]);
            }
            assert(h.width() == g.width());
            assert(h.height() == g.height() + amount);
        }
        assert forall|i: int| 0 <= i < h.words.len() implies word_fits(h, #[trigger] h.words[i]) by {
            let w = g.words[i];
            assert(word_fits(g, w));
            if prepend {
                assert(h.words[i] == GridView::moved_by(w, amount, d));
            } else {
                assert(h.words[i] == w);
            }
        }
    }
}

/// Committing a candidate that crosses the board keeps every word fitting, and grows the
/// board by at most the candidate's length in width and height together.
pub proof fn lemma_added_fits(g: GridView, c: WordView)
    requires
        g.wf(),
        g.anchored(),
        c.direction != Direction::NotSet,
        across(c.position, c.direction) < g.breadth(c.direction),
        along(c.position, c.direction) < g.extent(c.direction),
        g.width() + g.height() + c.full().len() <= usize::MAX,
    ensures
        g.added(c).anchored(),
        g.added(c).board.len() >= 1,
        g.added(c).width() + g.added(c).height() <= g.width() + g.height() + c.full().len(),
{
    let d = c.direction;
    let pre = GridView::prefix_deficit(c);
    let g1 = g.resized(pre, d, true);
    assert forall|i: int| 0 <= i < g.words.len() implies word_fits(g, #[trigger] g.words[i]) by {}
    lemma_resized_fits(g, pre, d, true);
    let app = g.suffix_deficit(c);
    let g2 = g1.resized(app, d, false);
    lemma_resized_fits(g1, app, d, false);
    let w1 = GridView::moved(c).with_origin_updated();
    assert(word_fits(g2, w1));
    let g3 = g2.filled(w1, w1.full().len() as int);
    assert(g3.board.len() == g2.board.len());
    assert(g3.board[0].len() == g2.board[0].len());
    let ga = g.added(c);
    assert(ga.board == g3.board);
    assert(ga.words.len() == g2.words.len() + 1);
    assert forall|i: int| 0 <= i < ga.words.len() implies word_fits(ga, #[trigger] ga.words[i])
        && ga.words[i].origin == ga.words[i].computed_origin() by {
        if i < g2.words.len() {
            assert(ga.words[i] == g2.words[i].with_origin_updated());
            assert(word_fits(g2, g2.words[i]));
        } else {
            assert(ga.words[i] == w1.with_origin_updated());
        }
    }
}

impl<'a> Grid<'a> {
    /// A structural copy: the same words and the same board.
    pub fn snapshot(&self) -> (r: Grid<'a>)
        ensures
            r@ == self@,
    {
        let mut words: Vec<Word<'a>> = Vec::new();
        let mut i: usize = 0;
        while i < self.words.len()
            invariant
                i <= self.words.len(),
                words@ == self.words@.subrange(0, i as int),
            decreases self.words.len() - i,
        {
            words.push(self.words[i]);
            i = i + 1;
            assert(words@ =~= self.words@.subrange(0, i as int));
        }
        assert(self.words@.subrange(0, self.words.len() as int) =~= self.words@);
        let mut board: Vec<Vec<char>> = Vec::new();
        let mut r: usize = 0;
        while r < self.board.len()
            invariant
                r <= self.board.len(),
                board@.len() == r,
                forall|k: int| 0 <= k < r ==> (#[trigger] board@[k])@ == self.board@[k]@,
            decreases self.board.len() - r,
        {
            let row = padded_row(&self.board[r], 0, 0);
            assert(row@ =~= self.board@[r as int]@);
            board.push(row);
            r = r + 1;
        }
        let g = Grid { words, board };
        assert(g@.board =~= self@.board);
        assert(g@.words =~= self@.words);
        g
    }
}

} // verus!
