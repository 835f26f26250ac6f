use crate::grid::{
    BLANK, Grid, GridView, across, blanks, empty_or_none, along, lemma_added_fits, lemma_resized_fits, word_fits, candidate_checked, candidate_fits, cell, cell_along, end_clear,
    lemma_placements_fit, perpendicular_empty, placements, point, scan_fits, valid_placement,
};
use crate::error::Error;
use crate::search::{
    any_lowercase, budget, generate_outcome, fresh_grid, fresh_queue, generated, lemma_pruned_from_input, lemma_queue_push, letters,
    pruned, search, try_placements,
};
use crate::word::{Direction, Position, WordView};
use vstd::prelude::*;

verus! {

/// At least one row, all rows of the same length.
pub open spec fn rectangular(b: Seq<Seq<char>>) -> bool {
    &&& b.len() >= 1
    &&& forall|r: int| 0 <= r < b.len() ==> #[trigger] b[r].len() == b[0].len()
}

/// The cell at coordinate `a` along `d` on the line of `p` is missing, blank, or holds `ch`.
pub open spec fn open_for(b: Seq<Seq<char>>, p: Position, d: Direction, a: int, ch: char) -> bool {
    match cell_along(b, p, d, a) {
        None => true,
        Some(v) => v == BLANK || v == ch,
    }
}

/// On a line that crosses the board, a missing cell stays missing further along.
proof fn lemma_line_leaves_board(b: Seq<Seq<char>>, p: Position, d: Direction, a0: int, a1: int, a2: int)
    requires
        rectangular(b),
        cell_along(b, p, d, a0) is Some,
        a0 <= a1 <= a2,
        cell_along(b, p, d, a1) is None,
    ensures
        cell_along(b, p, d, a2) is None,
{
    if d != Direction::Horizontal {
        assert(b[a0].len() == b[0].len());
        if 0 <= a1 < b.len() {
            assert(b[a1].len() == b[0].len());
        }
        if 0 <= a2 < b.len() {
            assert(b[a2].len() == b[0].len());
        }
    }
}

/// On a line that crosses the board, every cell from coordinate zero up to a cell on the board
/// is on the board too.
proof fn lemma_line_before_board(b: Seq<Seq<char>>, p: Position, d: Direction, a0: int, a1: int)
    requires
        rectangular(b),
        cell_along(b, p, d, a0) is Some,
        0 <= a1 <= a0,
    ensures
        cell_along(b, p, d, a1) is Some,
{
    if d != Direction::Horizontal {
        assert(b[a0].len() == b[0].len());
        assert(b[a1].len() == b[0].len());
    }
}

/// What a backward scan that passes guarantees of the cells it reads and of the cell after.
proof fn lemma_scan_backward(b: Seq<Seq<char>>, p: Position, d: Direction, a: int, chars: Seq<char>)
    requires
        rectangular(b),
        d != Direction::NotSet,
        cell_along(b, p, d, a) is Some,
        scan_fits(b, p, d, a, chars, -1),
    ensures
        forall|i: int| 0 <= i < chars.len() ==> open_for(b, p, d, a - 1 - i, #[trigger] chars[i]),
        forall|i: int|
            0 <= i < chars.len() && cell_along(b, p, d, a - 1 - i) == Some(BLANK) && #[trigger] chars[i]
                != BLANK ==> perpendicular_empty(
                b,
                point(p, d, a - 1 - i).0,
                point(p, d, a - 1 - i).1,
                d,
            ),
        end_clear(b, p, d, a - 1 - chars.len()),
    decreases chars.len(),
{
    if chars.len() > 0 {
        let a1 = a - 1;
        let rest = chars.drop_first();
        if a1 >= 0 {
            lemma_line_before_board(b, p, d, a, a1);
        }
        match cell_along(b, p, d, a1) {
            None => {
                assert(a1 < 0);
            },
            Some(c) => {
                if c == chars[0] || a1 != 0 {
                    lemma_scan_backward(b, p, d, a1, rest);
                    assert forall|i: int| 0 <= i < chars.len() implies open_for(
                        b,
                        p,
                        d,
                        a - 1 - i,
                        #[trigger] chars[i],
                    ) by {
                        if i > 0 {
                            assert(chars[i] == rest[i - 1]);
                        }
                    }
                    assert forall|i: int|
                        0 <= i < chars.len() && cell_along(b, p, d, a - 1 - i) == Some(BLANK)
                            && #[trigger] chars[i] != BLANK implies perpendicular_empty(
                        b,
                        point(p, d, a - 1 - i).0,
                        point(p, d, a - 1 - i).1,
                        d,
                    ) by {
                        if i > 0 {
                            assert(chars[i] == rest[i - 1]);
                        }
                    }
                }
            },
        }
    }
}

/// What a forward scan that passes guarantees of the cells it reads and of the cell after.
proof fn lemma_scan_forward(b: Seq<Seq<char>>, p: Position, d: Direction, a: int, chars: Seq<char>)
    requires
        rectangular(b),
        d != Direction::NotSet,
        cell_along(b, p, d, a) is Some,
        scan_fits(b, p, d, a, chars, 1),
    ensures
        forall|i: int| 0 <= i < chars.len() ==> open_for(b, p, d, a + 1 + i, #[trigger] chars[i]),
        forall|i: int|
            0 <= i < chars.len() && cell_along(b, p, d, a + 1 + i) == Some(BLANK) && #[trigger] chars[i]
                != BLANK ==> perpendicular_empty(
                b,
                point(p, d, a + 1 + i).0,
                point(p, d, a + 1 + i).1,
                d,
            ),
        end_clear(b, p, d, a + 1 + chars.len()),
    decreases chars.len(),
{
    if chars.len() > 0 {
        let a1 = a + 1;
        let rest = chars.drop_first();
        match cell_along(b, p, d, a1) {
            None => {
                assert forall|i: int| 0 <= i <= chars.len() implies #[trigger] cell_along(
                    b,
                    p,
                    d,
                    a1 + i,
                ) is None by {
                    lemma_line_leaves_board(b, p, d, a, a1, a1 + i);
                }
                assert(cell_along(b, p, d, a1 + chars.len()) is None);
                assert forall|i: int| 0 <= i < chars.len() implies open_for(
                    b,
                    p,
                    d,
                    a + 1 + i,
                    #[trigger] chars[i],
                ) by {
                    assert(cell_along(b, p, d, a1 + i) is None);
                }
            },
            Some(c) => {
                lemma_scan_forward(b, p, d, a1, rest);
                assert forall|i: int| 0 <= i < chars.len() implies open_for(
                    b,
                    p,
                    d,
                    a + 1 + i,
                    #[trigger] chars[i],
                ) by {
                    if i > 0 {
                        assert(chars[i] == rest[i - 1]);
                    }
                }
                assert forall|i: int|
                    0 <= i < chars.len() && cell_along(b, p, d, a + 1 + i) == Some(BLANK)
                        && #[trigger] chars[i] != BLANK implies perpendicular_empty(
                    b,
                    point(p, d, a + 1 + i).0,
                    point(p, d, a + 1 + i).1,
                    d,
                ) by {
                    if i > 0 {
                        assert(chars[i] == rest[i - 1]);
                    }
                }
            },
        }
    }
}

/// The cells of `c` on `b` obey the layout rules: the cell just before its first letter and
/// the cell just after its last are missing or blank, and each blank cell that a letter of
/// `c` other than its crossing one is to fill has empty neighbours across its direction.
pub open spec fn respects_layout(b: Seq<Seq<char>>, c: WordView) -> bool {
    let a = along(c.position, c.direction);
    let start = a - c.prefix.len();
    &&& end_clear(b, c.position, c.direction, start - 1)
    &&& end_clear(b, c.position, c.direction, a + c.suffix.len() + 1)
    &&& forall|k: int|
        0 <= k < c.full().len() && k != c.prefix.len() && cell_along(b, c.position, c.direction, start + k)
            == Some(BLANK) && #[trigger] c.full()[k] != BLANK ==> perpendicular_empty(
            b,
            point(c.position, c.direction, start + k).0,
            point(c.position, c.direction, start + k).1,
            c.direction,
        )
}

/// Every cell that `c` is to cover, other than its crossing cell, is missing, blank, or
/// already holds the letter that `c` puts there.
pub open spec fn fits_letters(b: Seq<Seq<char>>, c: WordView) -> bool {
    forall|k: int|
        0 <= k < c.full().len() && k != c.prefix.len() ==> open_for(
            b,
            c.position,
            c.direction,
            along(c.position, c.direction) - c.prefix.len() + k,
            #[trigger] c.full()[k],
        )
}

/// What the validation scan guarantees of a placement around a crossing cell on the board.
pub proof fn lemma_valid_placement_cells(b: Seq<Seq<char>>, c: WordView)
    requires
        rectangular(b),
        c.direction != Direction::NotSet,
        cell_along(b, c.position, c.direction, along(c.position, c.direction)) is Some,
        valid_placement(b, c),
    ensures
        respects_layout(b, c),
        fits_letters(b, c),
{
    let p = c.position;
    let d = c.direction;
    let a = along(p, d);
    let plen = c.prefix.len() as int;
    let rev = c.prefix.reverse();
    lemma_scan_backward(b, p, d, a, rev);
    lemma_scan_forward(b, p, d, a, c.suffix);
    assert forall|k: int| 0 <= k < c.full().len() && k != plen implies open_for(
        b,
        p,
        d,
        a - plen + k,
        #[trigger] c.full()[k],
    ) && (cell_along(b, p, d, a - plen + k) == Some(BLANK) && c.full()[k] != BLANK
        ==> perpendicular_empty(b, point(p, d, a - plen + k).0, point(p, d, a - plen + k).1, d)) by {
        if k < plen {
            let i = plen - 1 - k;
            assert(rev[i] == c.prefix[k]);
            assert(c.full()[k] == c.prefix[k]);
            assert(a - 1 - i == a - plen + k);
        } else {
            let i = k - plen - 1;
            assert(c.full()[k] == c.suffix[i]);
            assert(a + 1 + i == a - plen + k);
        }
    }
}

/// Each placement found for a word on a grid that already holds words obeys the layout rules
/// on that grid's board (see `respects_layout`).
pub proof fn lemma_found_placements_respect_layout(g: GridView, s: Seq<char>)
    requires
        g.wf(),
        g.anchored(),
        g.words.len() > 0,
        placements(g, s) is Ok,
    ensures
        forall|m: int|
            0 <= m < placements(g, s)->Ok_0.len() ==> respects_layout(
                g.board,
                #[trigger] placements(g, s)->Ok_0[m],
            ),
{
    lemma_placements_fit(g, s);
    assert forall|m: int| 0 <= m < placements(g, s)->Ok_0.len() implies respects_layout(
        g.board,
        #[trigger] placements(g, s)->Ok_0[m],
    ) by {
        let c = placements(g, s)->Ok_0[m];
        assert(candidate_fits(g, c, s));
        assert(candidate_checked(g, c));
        lemma_crossing_cell_on_board(g, c);
        lemma_valid_placement_cells(g.board, c);
    }
}

/// The crossing cell of a candidate that crosses the board lies on it.
pub proof fn lemma_crossing_cell_on_board(g: GridView, c: WordView)
    requires
        g.wf(),
        c.direction != Direction::NotSet,
        along(c.position, c.direction) < g.extent(c.direction),
        crate::grid::across(c.position, c.direction) < g.breadth(c.direction),
    ensures
        rectangular(g.board),
        cell_along(g.board, c.position, c.direction, along(c.position, c.direction)) is Some,
{
    if c.direction == Direction::Horizontal {
        assert(g.board[c.position.y as int].len() == g.board[0].len());
    } else {
        assert(g.board[c.position.y as int].len() == g.board[0].len());
    }
}

/// The `k`-th letter of `w`, read from its origin along its direction, is on `b`.
pub open spec fn holds_letter(b: Seq<Seq<char>>, w: WordView, k: int) -> bool {
    let x = point(w.position, w.direction, along(w.origin, w.direction) + k).0;
    let y = point(w.position, w.direction, along(w.origin, w.direction) + k).1;
    0 <= y < b.len() && 0 <= x < b[y].len() && b[y][x] == w.full()[k]
}

/// All letters of `w`, read from its origin along its direction, are on `b`.
pub open spec fn word_on_board(b: Seq<Seq<char>>, w: WordView) -> bool {
    forall|k: int| 0 <= k < w.full().len() ==> #[trigger] holds_letter(b, w, k)
}

/// No blank character in `s`.
pub open spec fn no_blank(s: Seq<char>) -> bool {
    !s.contains(BLANK)
}

impl GridView {
    /// Every placed word reads its letters on the board, and no placed word holds a blank.
    pub open spec fn consistent(self) -> bool {
        forall|i: int|
            0 <= i < self.words.len() ==> word_on_board(self.board, #[trigger] self.words[i])
                && no_blank(self.words[i].full())
    }
}

/// The columns and rows by which growing the board at the low edge moves its contents.
pub open spec fn shift_x(amount: nat, d: Direction, prepend: bool) -> int {
    if prepend && d == Direction::Horizontal {
        amount as int
    } else {
        0
    }
}

pub open spec fn shift_y(amount: nat, d: Direction, prepend: bool) -> int {
    if prepend && d == Direction::Vertical {
        amount as int
    } else {
        0
    }
}

/// Growing the board keeps it rectangular and moves every cell by the shift.
proof fn lemma_resized_transport(g: GridView, amount: nat, d: Direction, prepend: bool)
    requires
        rectangular(g.board),
        d != Direction::NotSet,
    ensures
        ({
            let h = g.resized(amount, d, prepend);
            &&& rectangular(h.board)
            &&& h.width() == g.width() + (if d == Direction::Horizontal {
                amount as int
            } else {
                0
            })
            &&& h.height() == g.height() + (if d == Direction::Vertical {
                amount as int
            } else {
                0
            })
            &&& forall|x: int, y: int|
                0 <= y < g.height() && 0 <= x < g.width() ==> h.board[y + shift_y(
                    amount,
                    d,
                    prepend,
                )][x + shift_x(amount, d, prepend)] == #[trigger] g.board[y][x]
            &&& forall|x: int, y: int|
                0 <= y < h.height() && 0 <= x < h.width() && !(shift_y(amount, d, prepend) <= y
                    < shift_y(amount, d, prepend) + g.height() && shift_x(amount, d, prepend) <= x
                    < shift_x(amount, d, prepend) + g.width()) ==> #[trigger] h.board[y][x] == BLANK
        }),
{
    let h = g.resized(amount, d, prepend);
    if amount > 0 {
        if d == Direction::Horizontal {
            assert forall|r: int| 0 <= r < h.board.len() implies #[trigger] h.board[r].len()
                == h.board[0].len() by {
                assert(g.board[r].len() == g.board[0].len());
            }
            assert forall|x: int, y: int|
                0 <= y < g.height() && 0 <= x < g.width() implies h.board[y + shift_y(
                amount,
                d,
                prepend,
            )][x + shift_x(amount, d, prepend)] == #[trigger] g.board[y][x] by {
                assert(g.board[y].len() == g.board[0].len());
            }
            assert forall|x: int, y: int|
                0 <= y < h.height() && 0 <= x < h.width() && !(shift_y(amount, d, prepend) <= y
                    < shift_y(amount, d, prepend) + g.height() && shift_x(amount, d, prepend) <= x
                    < shift_x(amount, d, prepend) + g.width()) implies #[trigger] h.board[y][x]
                == BLANK by {
                assert(g.board[y].len() == g.board[0].len());
            }
        } else {
            assert forall|r: int| 0 <= r < h.board.len() implies #[trigger] h.board[r].len()
                == h.board[0].len() by {
                if prepend {
                    if r >= amount {
                        assert(h.board[r] == g.board[r - amount]);
                        assert(g.board[r - amount].len() == g.board[0].len());
                    }
                } else {
                    if r < g.board.len() {
                        assert(g.board[r].len() == g.board[0].len());
                    }
                }
            }
            assert forall|x: int, y: int|
                0 <= y < g.height() && 0 <= x < g.width() implies h.board[y + shift_y(
                amount,
                d,
                prepend,
            )][x + shift_x(amount, d, prepend)] == #[trigger] g.board[y][x] by {
                if prepend {
                    assert(h.board[y + amount] == g.board[y]);
                } else {
                    assert(h.board[y] == g.board[y]);
                }
            }
            assert forall|x: int, y: int|
                0 <= y < h.height() && 0 <= x < h.width() && !(shift_y(amount, d, prepend) <= y
                    < shift_y(amount, d, prepend) + g.height() && shift_x(amount, d, prepend) <= x
                    < shift_x(amount, d, prepend) + g.width()) implies #[trigger] h.board[y][x]
                == BLANK by {
                if prepend {
                    assert(h.board[y] == blanks(g.width() as nat));
                } else {
                    assert(h.board[y] == blanks(g.width() as nat));
                }
            }
        }
    } else {
        assert(h == g);
    }
}

/// Every cell that `c` is to cover, its crossing cell included, is missing, blank, or already
/// holds the letter that `c` puts there.
pub open spec fn compatible(b: Seq<Seq<char>>, c: WordView) -> bool {
    forall|k: int|
        0 <= k < c.full().len() ==> open_for(
            b,
            c.position,
            c.direction,
            along(c.position, c.direction) - c.prefix.len() + k,
            #[trigger] c.full()[k],
        )
}

/// A sequence without blanks has no blank at any index.
proof fn lemma_no_blank_at(s: Seq<char>, k: int)
    requires
        no_blank(s),
        0 <= k < s.len(),
    ensures
        s[k] != BLANK,
{
    if s[k] == BLANK {
        assert(s.contains(BLANK));
    }
}


/// The requirements under which a candidate is committed during the search.
pub open spec fn commit_ready(g: GridView, c: WordView) -> bool {
    &&& g.wf()
    &&& g.anchored()
    &&& c.direction != Direction::NotSet
    &&& across(c.position, c.direction) < g.breadth(c.direction)
    &&& along(c.position, c.direction) < g.extent(c.direction)
    &&& g.width() + g.height() + c.full().len() <= usize::MAX
}

/// Where the old words and cells of `g` go when `c` is committed.
proof fn lemma_added_layout(g: GridView, c: WordView)
    requires
        commit_ready(g, c),
    ensures
        ({
            let d = c.direction;
            let pre = GridView::prefix_deficit(c);
            let ga = g.added(c);
            let w1 = GridView::moved(c).with_origin_updated();
            let sx = shift_x(pre, d, true);
            let sy = shift_y(pre, d, true);
            &&& ga.words.len() == g.words.len() + 1
            &&& ga.words[g.words.len() as int] == w1
            &&& forall|i: int|
                0 <= i < g.words.len() ==> #[trigger] ga.words[i] == GridView::moved_by(
                    g.words[i],
                    pre,
                    d,
                ).with_origin_updated()
            &&& rectangular(ga.board)
            &&& ga.width() + ga.height() <= usize::MAX
            &&& g.width() + sx <= ga.width()
            &&& g.height() + sy <= ga.height()
            &&& forall|x: int, y: int|
                0 <= y < g.height() && 0 <= x < g.width() ==> ga.board[y + sy][x + sx] == match crate::grid::letter_at(
                    w1,
                    x + sx,
                    y + sy,
                    c.full().len() as int,
                ) {
                    Some(ch) => ch,
                    None => #[trigger] g.board[y][x],
                }
            &&& forall|y: int, x: int|
                0 <= y < ga.height() && 0 <= x < ga.width() && crate::grid::letter_at(
                    w1,
                    x,
                    y,
                    c.full().len() as int,
                ) is Some ==> #[trigger] ga.board[y][x] == crate::grid::letter_at(
                    w1,
                    x,
                    y,
                    c.full().len() as int,
                )->Some_0
            &&& forall|y: int, x: int|
                0 <= y < ga.height() && 0 <= x < ga.width() && !(sy <= y < sy + g.height() && sx
                    <= x < sx + g.width()) && crate::grid::letter_at(
                    w1,
                    x,
                    y,
                    c.full().len() as int,
                ) is None ==> #[trigger] ga.board[y][x] == BLANK
        }),
{
    let d = c.direction;
    let pre = GridView::prefix_deficit(c);
    let g1 = g.resized(pre, d, true);
    let app = g.suffix_deficit(c);
    let g2 = g1.resized(app, d, false);
    assert forall|i: int| 0 <= i < g.words.len() implies word_fits(g, #[trigger] g.words[i]) by {}
    lemma_resized_fits(g, pre, d, true);
    lemma_resized_fits(g1, app, d, false);
    lemma_resized_transport(g, pre, d, true);
    lemma_resized_transport(g1, app, d, false);
    lemma_added_fits(g, c);
    let n = c.full().len() as int;
    let w1 = GridView::moved(c).with_origin_updated();
    let ga = g.added(c);
    let sx = shift_x(pre, d, true);
    let sy = shift_y(pre, d, true);
    assert forall|i: int| 0 <= i < g.words.len() implies #[trigger] ga.words[i]
        == GridView::moved_by(g.words[i], pre, d).with_origin_updated() by {
        assert(ga.words[i] == g2.words[i].with_origin_updated());
    }
    assert forall|r: int| 0 <= r < ga.board.len() implies #[trigger] ga.board[r].len()
        == ga.board[0].len() by {
        assert(g2.board[r].len() == g2.board[0].len());
    }
    assert forall|x: int, y: int| 0 <= y < g.height() && 0 <= x < g.width() implies ga.board[y
        + sy][x + sx] == match crate::grid::letter_at(w1, x + sx, y + sy, n) {
        Some(ch) => ch,
        None => #[trigger] g.board[y][x],
    } by {
        assert(g1.board[y + sy][x + sx] == g.board[y][x]);
        assert(g2.board[y + sy][x + sx] == g1.board[y + sy][x + sx]);
        assert(g2.board[y + sy].len() == g2.board[0].len());
    }
    assert forall|y: int, x: int|
        0 <= y < ga.height() && 0 <= x < ga.width() && crate::grid::letter_at(w1, x, y, n) is Some implies #[trigger] ga.board[y][x]
        == crate::grid::letter_at(w1, x, y, n)->Some_0 by {
        assert(g2.board[y].len() == g2.board[0].len());
    }
    assert forall|y: int, x: int|
        0 <= y < ga.height() && 0 <= x < ga.width() && !(sy <= y < sy + g.height() && sx <= x < sx
            + g.width()) && crate::grid::letter_at(w1, x, y, n) is None implies #[trigger] ga.board[y][x]
        == BLANK by {
        assert(g2.board[y].len() == g2.board[0].len());
        if 0 <= y < g1.height() && 0 <= x < g1.width() {
            assert(g2.board[y][x] == g1.board[y][x]);
            assert(g1.board[y][x] == BLANK);
        } else {
            assert(g2.board[y][x] == BLANK);
        }
    }
}

/// A placed word that fits moves its letters by the shift when the board grows at the low
/// edge and its origin is recomputed.
proof fn lemma_moved_letters(w: WordView, pre: nat, d: Direction, k: int)
    requires
        w.direction != Direction::NotSet,
        d != Direction::NotSet,
        along(w.position, w.direction) >= w.prefix.len(),
        w.origin == w.computed_origin(),
        w.position.x + pre <= usize::MAX,
        w.position.y + pre <= usize::MAX,
    ensures
        ({
            let wa = GridView::moved_by(w, pre, d).with_origin_updated();
            &&& wa.full() == w.full()
            &&& wa.direction == w.direction
            &&& point(wa.position, wa.direction, along(wa.origin, wa.direction) + k).0 == point(
                w.position,
                w.direction,
                along(w.origin, w.direction) + k,
            ).0 + shift_x(pre, d, true)
            &&& point(wa.position, wa.direction, along(wa.origin, wa.direction) + k).1 == point(
                w.position,
                w.direction,
                along(w.origin, w.direction) + k,
            ).1 + shift_y(pre, d, true)
        }),
{
}

/// A letter of an old word is still on the board once `c` is committed.
proof fn lemma_old_letter_kept(g: GridView, c: WordView, i: int, k: int)
    requires
        commit_ready(g, c),
        g.consistent(),
        compatible(g.board, c),
        0 <= i < g.words.len(),
        0 <= k < g.words[i].full().len(),
    ensures
        holds_letter(g.added(c).board, g.added(c).words[i], k),
{
    let d = c.direction;
    let pre = GridView::prefix_deficit(c);
    let ga = g.added(c);
    let w = g.words[i];
    let n = c.full().len() as int;
    let w1 = GridView::moved(c).with_origin_updated();
    let sx = shift_x(pre, d, true);
    let sy = shift_y(pre, d, true);
    lemma_added_layout(g, c);
    assert(word_fits(g, w));
    assert(w.position.x < g.width() && w.position.y < g.height());
    lemma_moved_letters(w, pre, d, k);
    let wa = ga.words[i];
    assert(wa == GridView::moved_by(w, pre, d).with_origin_updated());
    assert(word_on_board(g.board, w));
    assert(holds_letter(g.board, w, k));
    let x0 = point(w.position, w.direction, along(w.origin, w.direction) + k).0;
    let y0 = point(w.position, w.direction, along(w.origin, w.direction) + k).1;
    assert(g.board[y0].len() == g.board[0].len());
    assert(ga.board[y0 + sy][x0 + sx] == match crate::grid::letter_at(w1, x0 + sx, y0 + sy, n) {
        Some(ch) => ch,
        None => g.board[y0][x0],
    });
    assert(ga.board[y0 + sy].len() == ga.board[0].len());
    lemma_no_blank_at(w.full(), k);
    match crate::grid::letter_at(w1, x0 + sx, y0 + sy, n) {
        Some(ch) => {
            let a = along(c.position, d);
            let plen = c.prefix.len() as int;
            let kk = if d == Direction::Horizontal {
                x0 + sx - w1.origin.x
            } else {
                y0 + sy - w1.origin.y
            };
            assert(0 <= kk < n);
            assert(ch == c.full()[kk]);
            assert(point(c.position, d, a - plen + kk).0 == x0);
            assert(point(c.position, d, a - plen + kk).1 == y0);
            assert(open_for(g.board, c.position, d, a - plen + kk, c.full()[kk]));
            assert(cell(g.board, x0, y0) == Some(g.board[y0][x0]));
        },
        None => {},
    }
}

/// The letters of the committed word are on the board.
proof fn lemma_new_letter_placed(g: GridView, c: WordView, k: int)
    requires
        commit_ready(g, c),
        0 <= k < c.full().len(),
    ensures
        holds_letter(g.added(c).board, g.added(c).words[g.words.len() as int], k),
{
    let d = c.direction;
    let ga = g.added(c);
    let n = c.full().len() as int;
    let w1 = GridView::moved(c).with_origin_updated();
    lemma_added_layout(g, c);
    lemma_added_fits(g, c);
    assert(ga.words[g.words.len() as int] == w1);
    assert(word_fits(ga, w1));
    let x = point(w1.position, d, along(w1.origin, d) + k).0;
    let y = point(w1.position, d, along(w1.origin, d) + k).1;
    assert(crate::grid::letter_at(w1, x, y, n) == Some(w1.full()[k]));
    assert(ga.board[y].len() == ga.board[0].len());
}

/// Committing a compatible candidate without blanks keeps every placed word readable on the
/// board.
pub proof fn lemma_added_consistent(g: GridView, c: WordView)
    requires
        commit_ready(g, c),
        g.consistent(),
        compatible(g.board, c),
        no_blank(c.full()),
    ensures
        g.added(c).consistent(),
{
    let ga = g.added(c);
    lemma_added_layout(g, c);
    assert forall|i: int| 0 <= i < ga.words.len() implies word_on_board(
        ga.board,
        #[trigger] ga.words[i],
    ) && no_blank(ga.words[i].full()) by {
        if i < g.words.len() {
            lemma_moved_letters(g.words[i], GridView::prefix_deficit(c), c.direction, 0);
            assert(word_fits(g, g.words[i]));
            assert forall|k: int| 0 <= k < ga.words[i].full().len() implies #[trigger] holds_letter(
                ga.board,
                ga.words[i],
                k,
            ) by {
                lemma_old_letter_kept(g, c, i, k);
            }
        } else {
            assert forall|k: int| 0 <= k < ga.words[i].full().len() implies #[trigger] holds_letter(
                ga.board,
                ga.words[i],
                k,
            ) by {
                lemma_new_letter_placed(g, c, k);
            }
        }
    }
}

/// The crossing cell of a candidate found on a grid with words holds its crossed character.
proof fn lemma_crossing_cell_holds(g: GridView, c: WordView, s: Seq<char>)
    requires
        g.wf(),
        g.consistent(),
        g.width() + g.height() <= usize::MAX,
        g.words.len() > 0,
        candidate_fits(g, c, s),
        candidate_checked(g, c),
    ensures
        cell_along(g.board, c.position, c.direction, along(c.position, c.direction)) == Some(
            c.crossed,
        ),
{
    let (i, j) = choose|i: int, j: int|
        0 <= i < g.words.len() && #[trigger] crate::grid::crosses_at(g, c, g.words[i], j);
    let w = g.words[i];
    assert(word_on_board(g.board, w));
    assert(holds_letter(g.board, w, j));
    let y = point(w.position, w.direction, along(w.origin, w.direction) + j).1;
    assert(g.board[y].len() == g.board[0].len());
}

/// Every placement found for `s` on a consistent grid, fresh when it holds no word, covers
/// only cells that are missing, blank, or already hold its letters.
pub proof fn lemma_placements_compatible(g: GridView, s: Seq<char>)
    requires
        g.wf(),
        g.anchored(),
        g.consistent(),
        g.words.len() == 0 ==> g.board == seq![seq![BLANK]],
        g.width() + g.height() <= usize::MAX,
        placements(g, s) is Ok,
    ensures
        forall|m: int|
            0 <= m < placements(g, s)->Ok_0.len() ==> compatible(
                g.board,
                #[trigger] placements(g, s)->Ok_0[m],
            ),
{
    lemma_placements_fit(g, s);
    assert forall|m: int| 0 <= m < placements(g, s)->Ok_0.len() implies compatible(
        g.board,
        #[trigger] placements(g, s)->Ok_0[m],
    ) by {
        let c = placements(g, s)->Ok_0[m];
        assert(candidate_fits(g, c, s));
        assert(candidate_checked(g, c));
        let a = along(c.position, c.direction);
        let plen = c.prefix.len() as int;
        if g.words.len() > 0 {
            lemma_crossing_cell_on_board(g, c);
            lemma_valid_placement_cells(g.board, c);
            lemma_crossing_cell_holds(g, c, s);
            assert forall|k: int| 0 <= k < c.full().len() implies open_for(
                g.board,
                c.position,
                c.direction,
                a - plen + k,
                #[trigger] c.full()[k],
            ) by {
                if k == plen {
                    assert(c.full()[k] == c.crossed);
                } else {
                    assert(fits_letters(g.board, c));
                }
            }
        } else {
            assert forall|k: int| 0 <= k < c.full().len() implies open_for(
                g.board,
                c.position,
                c.direction,
                a - plen + k,
                #[trigger] c.full()[k],
            ) by {
                let x = point(c.position, c.direction, a - plen + k).0;
                let y = point(c.position, c.direction, a - plen + k).1;
                if cell(g.board, x, y) is Some {
                    assert(x == 0 && y == 0);
                    assert(g.board[0][0] == BLANK);
                }
            }
        }
    }
}

/// Committing a candidate keeps the grid well formed.
pub proof fn lemma_added_wf(g: GridView, c: WordView)
    requires
        commit_ready(g, c),
    ensures
        g.added(c).wf(),
{
    lemma_added_layout(g, c);
    lemma_added_fits(g, c);
    let ga = g.added(c);
    assert(ga.board[0].len() == ga.width());
    assert forall|i: int| 0 <= i < ga.words.len() implies #[trigger] ga.words[i].position.x
        < ga.width() && ga.words[i].position.y < ga.height() by {
        assert(word_fits(ga, ga.words[i]));
    }
}

/// The grids the search starts from or reaches: well formed, anchored, consistent, fresh while
/// empty, small enough for the queue's words, and the queue free of blanks.
pub open spec fn search_ready(g: GridView, q: Seq<(Seq<char>, nat)>) -> bool {
    &&& g.wf()
    &&& g.anchored()
    &&& g.consistent()
    &&& g.words.len() == 0 ==> g.board == seq![seq![BLANK]]
    &&& g.width() + g.height() + letters(q) <= usize::MAX
    &&& forall|i: int| 0 <= i < q.len() ==> no_blank(#[trigger] q[i].0)
}

/// The search keeps every placed word readable on the board of the grid it reports.
pub proof fn lemma_search_consistent(g: GridView, q: Seq<(Seq<char>, nat)>)
    requires
        search_ready(g, q),
    ensures
        search(g, q) matches Ok(Some(r)) ==> r.consistent(),
    decreases budget(q), 1int, 0int,
{
    if q.len() > 0 {
        let rest = q.drop_first();
        assert(letters(q) == q[0].0.len() + 1 + letters(rest));
        assert(budget(q) == q[0].1 + 1 + budget(rest));
        assert(no_blank(q[0].0));
        assert forall|i: int| 0 <= i < rest.len() implies no_blank(#[trigger] rest[i].0) by {
            assert(rest[i] == q[i + 1]);
        }
        match placements(g, q[0].0) {
            Err(e) => {},
            Ok(ps) => {
                if ps.len() == 0 && q[0].1 > 1 {
                    let next = rest.push((q[0].0, (q[0].1 - 1) as nat));
                    lemma_queue_push(rest, (q[0].0, (q[0].1 - 1) as nat));
                    assert forall|i: int| 0 <= i < next.len() implies no_blank(#[trigger] next[i].0) by {
                        if i < rest.len() {
                            assert(next[i] == rest[i]);
                        }
                    }
                    lemma_search_consistent(g, next);
                } else {
                    lemma_placements_fit(g, q[0].0);
                    lemma_placements_compatible(g, q[0].0);
                    lemma_try_consistent(g, ps, rest, 0, q[0].0);
                }
            },
        }
    }
}

/// Trying the placements from `i` on keeps every placed word readable on the board.
pub proof fn lemma_try_consistent(
    g: GridView,
    ps: Seq<WordView>,
    rest: Seq<(Seq<char>, nat)>,
    i: int,
    s: Seq<char>,
)
    requires
        g.wf(),
        g.anchored(),
        g.consistent(),
        g.words.len() == 0 ==> g.board == seq![seq![BLANK]],
        g.width() + g.height() + s.len() + 1 + letters(rest) <= usize::MAX,
        no_blank(s),
        forall|j: int| 0 <= j < rest.len() ==> no_blank(#[trigger] rest[j].0),
        forall|m: int|
            0 <= m < ps.len() ==> candidate_fits(g, #[trigger] ps[m], s) && compatible(
                g.board,
                ps[m],
            ),
    ensures
        try_placements(g, ps, rest, i) matches Ok(Some(r)) ==> r.consistent(),
    decreases budget(rest) + 1, 0int, ps.len() - i,
{
    if 0 <= i < ps.len() {
        let c = ps[i];
        assert(candidate_fits(g, c, s));
        assert(commit_ready(g, c));
        lemma_added_fits(g, c);
        lemma_added_wf(g, c);
        lemma_added_consistent(g, c);
        lemma_search_consistent(g.added(c), rest);
        lemma_try_consistent(g, ps, rest, i + 1, s);
    }
}

/// Every grid that generation reports holds each placed word's letters, read from its origin
/// along its direction, provided no input word holds a blank character.
pub proof fn lemma_generated_words_on_board(ws: Seq<Seq<char>>)
    requires
        forall|i: int| 0 <= i < ws.len() ==> no_blank(#[trigger] ws[i]),
        letters(fresh_queue(pruned(ws))) + 2 <= usize::MAX,
    ensures
        generated(ws) matches Ok(Some(r)) ==> r.consistent(),
{
    let q = fresh_queue(pruned(ws));
    assert forall|i: int| 0 <= i < q.len() implies no_blank(#[trigger] q[i].0) by {
        lemma_pruned_from_input(ws, i);
        let j = choose|j: int| 0 <= j < ws.len() && ws[j] == pruned(ws)[i];
        assert(no_blank(ws[j]));
    }
    let g = fresh_grid();
    assert(g.board[0] == seq![BLANK]);
    assert(g.wf());
    lemma_search_consistent(g, q);
}

/// A grid that `generate` returns holds each placed word's letters, read from its origin along
/// its direction, provided no input word holds a blank character.
pub proof fn lemma_generate_words_on_board<'a>(ws: Seq<Seq<char>>, r: Result<Option<Grid<'a>>, Error>)
    requires
        forall|i: int| 0 <= i < ws.len() ==> no_blank(#[trigger] ws[i]),
        generate_outcome(ws, r),
    ensures
        r matches Ok(Some(grid)) ==> grid@.consistent(),
{
    if !any_lowercase(ws) && letters(fresh_queue(pruned(ws))) + 2 <= usize::MAX {
        lemma_generated_words_on_board(ws);
    }
}

/// Right after `c` is committed to `g`, the cells just before the first letter and just after
/// the last letter of the committed word are missing or blank.
pub open spec fn committed_ends_clear(g: GridView, c: WordView) -> bool {
    let ga = g.added(c);
    let w = ga.words[g.words.len() as int];
    &&& end_clear(ga.board, w.position, w.direction, along(w.origin, w.direction) - 1)
    &&& end_clear(ga.board, w.position, w.direction, along(w.origin, w.direction) + w.full().len())
}

/// A cell off the committed word, on its line, is clear after the commit when the cell it
/// came from was clear before.
proof fn lemma_committed_cell_clear(g: GridView, c: WordView, t: int)
    requires
        commit_ready(g, c),
        end_clear(g.board, c.position, c.direction, t - GridView::prefix_deficit(c)),
        ({
            let w1 = GridView::moved(c).with_origin_updated();
            t < along(w1.origin, c.direction) || t >= along(w1.origin, c.direction)
                + c.full().len()
        }),
    ensures
        end_clear(
            g.added(c).board,
            GridView::moved(c).with_origin_updated().position,
            c.direction,
            t,
        ),
{
    let d = c.direction;
    let pre = GridView::prefix_deficit(c);
    let ga = g.added(c);
    let n = c.full().len() as int;
    let w1 = GridView::moved(c).with_origin_updated();
    let sx = shift_x(pre, d, true);
    let sy = shift_y(pre, d, true);
    lemma_added_layout(g, c);
    let x = point(w1.position, d, t).0;
    let y = point(w1.position, d, t).1;
    if 0 <= y < ga.height() && 0 <= x < ga.width() {
        assert(ga.board[y].len() == ga.board[0].len());
        assert(crate::grid::letter_at(w1, x, y, n) is None);
        if sy <= y < sy + g.height() && sx <= x < sx + g.width() {
            let ox = x - sx;
            let oy = y - sy;
            assert(g.board[oy].len() == g.board[0].len());
            assert(ga.board[oy + sy][ox + sx] == g.board[oy][ox]);
            assert(point(c.position, d, t - pre) == (ox, oy));
            assert(cell(g.board, ox, oy) == Some(g.board[oy][ox]));
        }
    }
}

/// A committed word has clear cells at both ends when its placement obeyed the layout rules.
proof fn lemma_committed_ends_clear(g: GridView, c: WordView)
    requires
        commit_ready(g, c),
        g.words.len() > 0 ==> respects_layout(g.board, c),
        g.words.len() == 0 ==> g.board == seq![seq![BLANK]],
    ensures
        committed_ends_clear(g, c),
{
    let d = c.direction;
    let pre = GridView::prefix_deficit(c);
    let n = c.full().len() as int;
    let w1 = GridView::moved(c).with_origin_updated();
    lemma_added_layout(g, c);
    let a = along(c.position, d);
    let plen = c.prefix.len() as int;
    let o = along(w1.origin, d);
    assert(o == a + pre - plen);
    assert(n == plen + 1 + c.suffix.len());
    if g.words.len() == 0 {
        assert(g.board[0] == seq![BLANK]);
        assert forall|t: int| true implies end_clear(g.board, c.position, d, t) by {}
    }
    lemma_committed_cell_clear(g, c, o - 1);
    lemma_committed_cell_clear(g, c, o + n);
}

/// The cell beside the cell at coordinate `t` along `d` on the line of `p`, `side` cells
/// across the line.
pub open spec fn beside(p: Position, d: Direction, t: int, side: int) -> (int, int) {
    if d == Direction::Horizontal {
        (point(p, d, t).0, point(p, d, t).1 + side)
    } else {
        (point(p, d, t).0 + side, point(p, d, t).1)
    }
}

/// Right after `c` is committed to `g`, each letter of the committed word that went into a
/// cell not already holding it, the crossing letter aside, has missing or blank cells on both
/// sides across the word.
pub open spec fn committed_sides_clear(g: GridView, c: WordView) -> bool {
    let ga = g.added(c);
    let w = ga.words[g.words.len() as int];
    let o = along(w.origin, w.direction);
    let start = along(c.position, c.direction) - c.prefix.len();
    forall|k: int, side: int|
        0 <= k < w.full().len() && k != w.prefix.len() && (side == 1 || side == -1) && cell_along(
            g.board,
            c.position,
            c.direction,
            start + k,
        ) != Some(w.full()[k]) ==> empty_or_none(
            cell(
                ga.board,
                #[trigger] beside(w.position, w.direction, o + k, side).0,
                beside(w.position, w.direction, o + k, side).1,
            ),
        )
}

/// A cell beside a letter of the committed word is clear after the commit when the letter's
/// cell was missing before, or blank with clear neighbours across the word.
proof fn lemma_committed_side_clear(g: GridView, c: WordView, k: int, side: int)
    requires
        commit_ready(g, c),
        0 <= k < c.full().len(),
        side == 1 || side == -1,
        ({
            let at = along(c.position, c.direction) - c.prefix.len() + k;
            let old = cell_along(g.board, c.position, c.direction, at);
            old is None || (old == Some(BLANK) && perpendicular_empty(
                g.board,
                point(c.position, c.direction, at).0,
                point(c.position, c.direction, at).1,
                c.direction,
            ))
        }),
    ensures
        ({
            let w1 = GridView::moved(c).with_origin_updated();
            let o = along(w1.origin, c.direction);
            empty_or_none(
                cell(
                    g.added(c).board,
                    beside(w1.position, c.direction, o + k, side).0,
                    beside(w1.position, c.direction, o + k, side).1,
                ),
            )
        }),
{
    let d = c.direction;
    let pre = GridView::prefix_deficit(c);
    let ga = g.added(c);
    let n = c.full().len() as int;
    let w1 = GridView::moved(c).with_origin_updated();
    let sx = shift_x(pre, d, true);
    let sy = shift_y(pre, d, true);
    lemma_added_layout(g, c);
    let a = along(c.position, d);
    let plen = c.prefix.len() as int;
    let o = along(w1.origin, d);
    assert(o == a + pre - plen);
    let at = a - plen + k;
    let x = beside(w1.position, d, o + k, side).0;
    let y = beside(w1.position, d, o + k, side).1;
    let ox = point(c.position, d, at).0;
    let oy = point(c.position, d, at).1;
    assert(beside(c.position, d, at, side) == (x - sx, y - sy));
    if 0 <= y < ga.height() && 0 <= x < ga.width() {
        assert(ga.board[y].len() == ga.board[0].len());
        assert(crate::grid::letter_at(w1, x, y, n) is None);
        if sy <= y < sy + g.height() && sx <= x < sx + g.width() {
            let bx = x - sx;
            let by = y - sy;
            assert(g.board[by].len() == g.board[0].len());
            assert(ga.board[by + sy][bx + sx] == g.board[by][bx]);
            assert(cell(g.board, bx, by) == Some(g.board[by][bx]));
            if d == Direction::Horizontal {
                assert(0 <= oy < g.height());
                assert(g.board[oy].len() == g.board[0].len());
                assert(cell(g.board, ox, oy) is Some);
            } else {
                assert(0 <= ox < g.width());
                assert(g.board[oy].len() == g.board[0].len());
                assert(cell(g.board, ox, oy) is Some);
            }
        }
    }
}

/// A committed word has clear sides at its new letters when its placement obeyed the layout
/// rules and covered only cells that were missing, blank, or held its letters.
proof fn lemma_committed_sides_clear(g: GridView, c: WordView)
    requires
        commit_ready(g, c),
        g.words.len() > 0 ==> respects_layout(g.board, c) && fits_letters(g.board, c),
        g.words.len() == 0 ==> g.board == seq![seq![BLANK]] && c.position == (Position { x: 0, y: 0 }),
    ensures
        committed_sides_clear(g, c),
{
    let d = c.direction;
    let ga = g.added(c);
    let w1 = GridView::moved(c).with_origin_updated();
    lemma_added_layout(g, c);
    assert(ga.words[g.words.len() as int] == w1);
    let o = along(w1.origin, d);
    let start = along(c.position, d) - c.prefix.len();
    assert forall|k: int, side: int|
        0 <= k < w1.full().len() && k != w1.prefix.len() && (side == 1 || side == -1)
            && cell_along(g.board, c.position, d, start + k) != Some(w1.full()[k]) implies empty_or_none(
        cell(
            ga.board,
            #[trigger] beside(w1.position, d, o + k, side).0,
            beside(w1.position, d, o + k, side).1,
        ),
    ) by {
        let at = start + k;
        if g.words.len() > 0 {
            assert(open_for(g.board, c.position, d, at, c.full()[k]));
            if cell_along(g.board, c.position, d, at) == Some(BLANK) {
                lemma_no_blank_or_layout(g.board, c, k);
            }
        } else {
            assert(g.board[0] == seq![BLANK]);
            assert(c.full()[k] == w1.full()[k]);
            if cell_along(g.board, c.position, d, at) is Some {
                assert(at == 0);
                assert(along(c.position, d) == 0);
                assert(k == c.prefix.len());
            }
        }
        lemma_committed_side_clear(g, c, k, side);
    }
}

/// The layout rules give clear sides at a letter whose cell was blank and is to change.
proof fn lemma_no_blank_or_layout(b: Seq<Seq<char>>, c: WordView, k: int)
    requires
        respects_layout(b, c),
        0 <= k < c.full().len(),
        k != c.prefix.len(),
        cell_along(b, c.position, c.direction, along(c.position, c.direction) - c.prefix.len() + k)
            == Some(BLANK),
        c.full()[k] != BLANK,
    ensures
        perpendicular_empty(
            b,
            point(c.position, c.direction, along(c.position, c.direction) - c.prefix.len() + k).0,
            point(c.position, c.direction, along(c.position, c.direction) - c.prefix.len() + k).1,
            c.direction,
        ),
{
}

/// Each placement found for a word, once the search commits it, obeys the layout rules on
/// the board it is committed to: the cells just before its first letter and just after its
/// last are missing or blank, and each letter written into a cell that did not already hold
/// it, the crossing letter aside, has missing or blank cells on both sides across the word.
pub proof fn lemma_committed_placements_keep_layout(g: GridView, s: Seq<char>)
    requires
        g.wf(),
        g.anchored(),
        g.words.len() == 0 ==> g.board == seq![seq![BLANK]],
        g.width() + g.height() + s.len() <= usize::MAX,
        placements(g, s) is Ok,
    ensures
        forall|m: int|
            0 <= m < placements(g, s)->Ok_0.len() ==> committed_ends_clear(
                g,
                #[trigger] placements(g, s)->Ok_0[m],
            ) && committed_sides_clear(g, placements(g, s)->Ok_0[m]),
{
    lemma_placements_fit(g, s);
    if g.words.len() > 0 {
        lemma_found_placements_respect_layout(g, s);
    }
    assert forall|m: int| 0 <= m < placements(g, s)->Ok_0.len() implies committed_ends_clear(
        g,
        #[trigger] placements(g, s)->Ok_0[m],
    ) && committed_sides_clear(g, placements(g, s)->Ok_0[m]) by {
        let c = placements(g, s)->Ok_0[m];
        assert(candidate_fits(g, c, s));
        assert(candidate_checked(g, c));
        assert(commit_ready(g, c));
        if g.words.len() > 0 {
            lemma_crossing_cell_on_board(g, c);
            lemma_valid_placement_cells(g.board, c);
        }
        lemma_committed_ends_clear(g, c);
        lemma_committed_sides_clear(g, c);
    }
}

} // verus!
