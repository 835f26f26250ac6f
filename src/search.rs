use crate::error::{Error, GridError, WordError};
use crate::grid::{
    BLANK, Grid, GridView, candidate_fits, lemma_added_fits, lemma_placements_fit, placements, views,
};
use crate::word::{WordView, has_lowercase, str_has_lowercase};
use std::collections::VecDeque;
use vstd::prelude::*;
use vstd::string::StrSliceExecFns;

verus! {

/// The number of tries a word gets before the search stops deferring it.
pub const RETRY_BUDGET: usize = 3;

/// A word waiting to be placed, with the tries it has left.
#[derive(Debug, Clone, Copy)]
pub struct PossibleWord<'a> {
    /// The word.
    pub value: &'a str,
    /// How many more times the search may take it up.
    pub remaining: usize,
}

impl<'a> PossibleWord<'a> {
    /// A queued word with the full retry budget.
    pub fn new(value: &'a str) -> (r: Self)
        ensures
            r.value == value,
            r.remaining == RETRY_BUDGET,
    {
        PossibleWord { value, remaining: RETRY_BUDGET }
    }
}

/// Whether some character of `a` occurs in `b`.
pub open spec fn shares_char(a: Seq<char>, b: Seq<char>) -> bool {
    exists|i: int| 0 <= i < a.len() && b.contains(#[trigger] a[i])
}

/// The first index from `j` on of a word other than `a` that shares a character with `a`.
pub open spec fn partner_from(ws: Seq<Seq<char>>, a: Seq<char>, j: int) -> Option<int>
    decreases ws.len() - j,
{
    if j < 0 || j >= ws.len() {
        None
    } else if ws[j] != a && shares_char(a, ws[j]) {
        Some(j)
    } else {
        partner_from(ws, a, j + 1)
    }
}

/// `l` with `x` appended unless it is already there.
pub open spec fn add_absent(l: Seq<Seq<char>>, x: Seq<char>) -> Seq<Seq<char>> {
    if l.contains(x) {
        l
    } else {
        l.push(x)
    }
}

/// The words kept after looking at the first `i` words: each one with a partner is added,
/// then its first partner, each only once, in the order found.
pub open spec fn discovered(ws: Seq<Seq<char>>, i: int) -> Seq<Seq<char>>
    decreases i,
{
    if i <= 0 {
        Seq::empty()
    } else {
        let l = discovered(ws, i - 1);
        let a = ws[i - 1];
        match partner_from(ws, a, 0) {
            Some(j) => add_absent(add_absent(l, a), ws[j]),
            None => l,
        }
    }
}

/// `x` put into `s` after every word at least as long as it.
pub open spec fn insert_by_length(s: Seq<Seq<char>>, x: Seq<char>) -> Seq<Seq<char>>
    decreases s.len(),
{
    if s.len() == 0 {
        seq![x]
    } else if s[0].len() < x.len() {
        seq![x] + s
    } else {
        seq![s[0]] + insert_by_length(s.drop_first(), x)
    }
}

/// `l` ordered longest first, words of equal length in their order in `l`.
pub open spec fn longest_first(l: Seq<Seq<char>>) -> Seq<Seq<char>>
    decreases l.len(),
{
    if l.len() == 0 {
        Seq::empty()
    } else {
        insert_by_length(longest_first(l.drop_last()), l.last())
    }
}

/// The character sequences of a list of words.
pub open spec fn texts<'a>(ws: Seq<&'a str>) -> Seq<Seq<char>> {
    ws.map_values(|s: &'a str| s@)
}

/// The queue that pruning builds from `ws`.
pub open spec fn pruned(ws: Seq<Seq<char>>) -> Seq<Seq<char>> {
    longest_first(discovered(ws, ws.len() as int))
}

/// Whether `a` and `b` hold the same characters.
fn same_text(a: &str, b: &str) -> (r: bool)
    ensures
        r == (a@ == b@),
{
    let n = a.unicode_len();
    if n != b.unicode_len() {
        return false;
    }
    let mut i: usize = 0;
    while i < n
        invariant
            n == a@.len(),
            n == b@.len(),
            i <= n,
            forall|k: int| 0 <= k < i ==> a@[k] == b@[k],
        decreases n - i,
    {
        if a.get_char(i) != b.get_char(i) {
            return false;
        }
        i = i + 1;
    }
    assert(a@ =~= b@);
    true
}

/// Whether `s` holds the character `c`.
fn text_contains(s: &str, c: char) -> (r: bool)
    ensures
        r == s@.contains(c),
{
    let n = s.unicode_len();
    let mut i: usize = 0;
    while i < n
        invariant
            n == s@.len(),
            i <= n,
            forall|k: int| 0 <= k < i ==> s@[k] != c,
        decreases n - i,
    {
        if s.get_char(i) == c {
            return true;
        }
        i = i + 1;
    }
    false
}

/// Whether some character of `a` occurs in `b`.
fn texts_share(a: &str, b: &str) -> (r: bool)
    ensures
        r == shares_char(a@, b@),
{
    let n = a.unicode_len();
    let mut i: usize = 0;
    while i < n
        invariant
            n == a@.len(),
            i <= n,
            forall|k: int| 0 <= k < i ==> !b@.contains(#[trigger] a@[k]),
        decreases n - i,
    {
        if text_contains(b, a.get_char(i)) {
            return true;
        }
        i = i + 1;
    }
    false
}

/// Whether `l` already holds a word with the characters of `x`.
fn holds_text<'a>(l: &Vec<&'a str>, x: &str) -> (r: bool)
    ensures
        r == texts(l@).contains(x@),
{
    let mut i: usize = 0;
    while i < l.len()
        invariant
            i <= l.len(),
            forall|k: int| 0 <= k < i ==> texts(l@)[k] != x@,
        decreases l.len() - i,
    {
        if same_text(l[i], x) {
            assert(texts(l@)[i as int] == x@);
            return true;
        }
        i = i + 1;
    }
    false
}

/// The first word of `ws` other than `a` that shares a character with it.
fn find_partner<'a>(ws: &[&'a str], a: &str) -> (r: Option<usize>)
    ensures
        r matches Some(j) ==> j < ws@.len() && partner_from(texts(ws@), a@, 0) == Some(j as int),
        r is None ==> partner_from(texts(ws@), a@, 0) is None,
{
    let ghost t = texts(ws@);
    let mut j: usize = 0;
    while j < ws.len()
        invariant
            t == texts(ws@),
            j <= ws.len(),
            partner_from(t, a@, 0) == partner_from(t, a@, j as int),
        decreases ws.len() - j,
    {
        let b = ws[j];
        assert(t[j as int] == b@);
        if !same_text(a, b) && texts_share(a, b) {
            return Some(j);
        }
        j = j + 1;
    }
    None
}

/// Inserting by length puts `x` just before the first shorter word.
proof fn lemma_insert_at(s: Seq<Seq<char>>, x: Seq<char>, p: int)
    requires
        0 <= p <= s.len(),
        forall|k: int| 0 <= k < p ==> (#[trigger] s[k]).len() >= x.len(),
        p < s.len() ==> s[p].len() < x.len(),
    ensures
        insert_by_length(s, x) == s.subrange(0, p) + seq![x] + s.subrange(p, s.len() as int),
    decreases s.len(),
{
    if s.len() == 0 {
        assert(s.subrange(0, p) + seq![x] + s.subrange(p, s.len() as int) =~= seq![x]);
    } else if p == 0 {
        assert(s.subrange(0, p) + seq![x] + s.subrange(p, s.len() as int) =~= seq![x] + s);
    } else {
        let t = s.drop_first();
        assert forall|k: int| 0 <= k < p - 1 implies (#[trigger] t[k]).len() >= x.len() by {
            assert(t[k] == s[k + 1]);
        }
        lemma_insert_at(t, x, p - 1);
        assert(s.subrange(0, p) + seq![x] + s.subrange(p, s.len() as int) =~= seq![s[0]] + (
        t.subrange(0, p - 1) + seq![x] + t.subrange(p - 1, t.len() as int)));
    }
}

/// Puts `x` into `sorted` after every word at least as long as it.
fn insert_longest_first<'a>(sorted: &mut Vec<&'a str>, x: &'a str)
    ensures
        texts(final(sorted)@) == insert_by_length(texts(old(sorted)@), x@),
{
    let ghost s = texts(sorted@);
    let n = x.unicode_len();
    let mut p: usize = 0;
    while p < sorted.len() && sorted[p].unicode_len() >= n
        invariant
            s == texts(sorted@),
            n == x@.len(),
            p <= sorted.len(),
            forall|k: int| 0 <= k < p ==> (#[trigger] s[k]).len() >= x@.len(),
        decreases sorted.len() - p,
    {
        p = p + 1;
    }
    proof {
        lemma_insert_at(s, x@, p as int);
    }
    sorted.insert(p, x);
    assert(texts(sorted@) =~= s.subrange(0, p as int) + seq![x@] + s.subrange(
        p as int,
        s.len() as int,
    ));
}

/// Pruning: keeps only the words that share a character with some other, different word,
/// each once, longest first, each with the full retry budget.
pub fn eliminate_words<'a>(words_to_place: &[&'a str]) -> (r: VecDeque<PossibleWord<'a>>)
    ensures
        r@.len() == pruned(texts(words_to_place@)).len(),
        forall|i: int|
            0 <= i < r@.len() ==> (#[trigger] r@[i]).value@ == pruned(texts(words_to_place@))[i]
                && r@[i].remaining == RETRY_BUDGET,
{
    let ghost ws = texts(words_to_place@);
    let mut possible_words: Vec<&'a str> = Vec::new();
    let mut i: usize = 0;
    while i < words_to_place.len()
        invariant
            ws == texts(words_to_place@),
            i <= words_to_place.len(),
            texts(possible_words@) == discovered(ws, i as int),
        decreases words_to_place.len() - i,
    {
        let word_str = words_to_place[i];
        assert(ws[i as int] == word_str@);
        match find_partner(words_to_place, word_str) {
            Some(j) => {
                let word_str_cmp = words_to_place[j];
                assert(ws[j as int] == word_str_cmp@);
                let ghost l0 = possible_words@;
                if !holds_text(&possible_words, word_str) {
                    possible_words.push(word_str);
                    assert(texts(possible_words@) =~= texts(l0).push(word_str@));
                }
                let ghost l1 = possible_words@;
                assert(texts(l1) == add_absent(texts(l0), word_str@));
                if !holds_text(&possible_words, word_str_cmp) {
                    possible_words.push(word_str_cmp);
                    assert(texts(possible_words@) =~= texts(l1).push(word_str_cmp@));
                }
            },
            None => {},
        }
        i = i + 1;
    }
    let mut sorted: Vec<&'a str> = Vec::new();
    let mut k: usize = 0;
    while k < possible_words.len()
        invariant
            k <= possible_words.len(),
            texts(sorted@) == longest_first(texts(possible_words@).subrange(0, k as int)),
        decreases possible_words.len() - k,
    {
        let ghost prev = texts(possible_words@).subrange(0, k as int);
        insert_longest_first(&mut sorted, possible_words[k]);
        assert(texts(possible_words@).subrange(0, k + 1).drop_last() =~= prev);
        k = k + 1;
    }
    assert(texts(possible_words@).subrange(0, possible_words.len() as int) =~= texts(
        possible_words@,
    ));
    let mut queue: VecDeque<PossibleWord<'a>> = VecDeque::new();
    let mut m: usize = 0;
    while m < sorted.len()
        invariant
            m <= sorted.len(),
            queue@.len() == m,
            forall|t: int|
                0 <= t < m ==> (#[trigger] queue@[t]).value == sorted@[t] && queue@[t].remaining
                    == RETRY_BUDGET,
        decreases sorted.len() - m,
    {
        queue.push_back(PossibleWord::new(sorted[m]));
        m = m + 1;
    }
    assert forall|t: int| 0 <= t < queue@.len() implies (#[trigger] queue@[t]).value@
        == texts(sorted@)[t] by {}
    queue
}

/// Every word that pruning keeps is one of the input words.
pub proof fn lemma_pruned_from_input(ws: Seq<Seq<char>>, k: int)
    requires
        0 <= k < pruned(ws).len(),
    ensures
        ws.contains(pruned(ws)[k]),
{
    lemma_discovered_crossing(ws, ws.len() as int);
    lemma_longest_first_keeps_crossing(ws, discovered(ws, ws.len() as int));
}

/// Pruning keeps no word that shares no character with any other, different input word.
pub proof fn lemma_pruning_drops_isolated_words(ws: Seq<Seq<char>>, x: Seq<char>)
    requires
        forall|j: int| 0 <= j < ws.len() && ws[j] != x ==> !shares_char(x, #[trigger] ws[j]),
    ensures
        !pruned(ws).contains(x),
{
    lemma_discovered_crossing(ws, ws.len() as int);
    lemma_longest_first_keeps_crossing(ws, discovered(ws, ws.len() as int));
    if pruned(ws).contains(x) {
        let k = choose|k: int| 0 <= k < pruned(ws).len() && pruned(ws)[k] == x;
        assert(crosses_another(ws, pruned(ws)[k]));
    }
}

/// Whether `x` occurs in `ws` and shares a character with another, different word of `ws`.
pub open spec fn crosses_another(ws: Seq<Seq<char>>, x: Seq<char>) -> bool {
    &&& ws.contains(x)
    &&& exists|j: int| 0 <= j < ws.len() && ws[j] != x && shares_char(x, #[trigger] ws[j])
}

/// Sharing a character is symmetric.
proof fn lemma_shares_symmetric(a: Seq<char>, b: Seq<char>)
    requires
        shares_char(a, b),
    ensures
        shares_char(b, a),
{
    let i = choose|i: int| 0 <= i < a.len() && b.contains(#[trigger] a[i]);
    let k = choose|k: int| 0 <= k < b.len() && b[k] == a[i];
    assert(a.contains(b[k]));
}

/// Every discovered word crosses another, different input word.
proof fn lemma_discovered_crossing(ws: Seq<Seq<char>>, i: int)
    requires
        i <= ws.len(),
    ensures
        forall|k: int|
            0 <= k < discovered(ws, i).len() ==> crosses_another(ws, #[trigger] discovered(ws, i)[k]),
    decreases i,
{
    if i > 0 {
        lemma_discovered_crossing(ws, i - 1);
        let l = discovered(ws, i - 1);
        let a = ws[i - 1];
        match partner_from(ws, a, 0) {
            Some(j) => {
                lemma_partner_found(ws, a, 0);
                assert(ws[i - 1] == a);
                assert(crosses_another(ws, a));
                lemma_shares_symmetric(a, ws[j]);
                assert(ws[i - 1] != ws[j]);
                assert(ws.contains(ws[j]));
                assert(crosses_another(ws, ws[j]));
                let l1 = add_absent(l, a);
                assert forall|k: int| 0 <= k < l1.len() implies crosses_another(ws, #[trigger] l1[k]) by {
                    if k < l.len() {
                        assert(l1[k] == l[k]);
                    }
                }
                let l2 = add_absent(l1, ws[j]);
                assert forall|k: int| 0 <= k < l2.len() implies crosses_another(ws, #[trigger] l2[k]) by {
                    if k < l1.len() {
                        assert(l2[k] == l1[k]);
                    }
                }
            },
            None => {},
        }
    }
}

/// A partner that the scan finds is a different word that shares a character.
proof fn lemma_partner_found(ws: Seq<Seq<char>>, a: Seq<char>, j: int)
    requires
        0 <= j,
        partner_from(ws, a, j) is Some,
    ensures
        ({
            let p = partner_from(ws, a, j)->Some_0;
            0 <= p < ws.len() && ws[p] != a && shares_char(a, ws[p])
        }),
    decreases ws.len() - j,
{
    if j < ws.len() && !(ws[j] != a && shares_char(a, ws[j])) {
        lemma_partner_found(ws, a, j + 1);
    }
}

/// Inserting by length keeps every word crossing another input word.
proof fn lemma_insert_keeps_crossing(ws: Seq<Seq<char>>, s: Seq<Seq<char>>, x: Seq<char>)
    requires
        forall|k: int| 0 <= k < s.len() ==> crosses_another(ws, #[trigger] s[k]),
        crosses_another(ws, x),
    ensures
        forall|k: int|
            0 <= k < insert_by_length(s, x).len() ==> crosses_another(
                ws,
                #[trigger] insert_by_length(s, x)[k],
            ),
    decreases s.len(),
{
    let t = insert_by_length(s, x);
    if s.len() == 0 {
        assert(t =~= seq![x]);
    } else if s[0].len() < x.len() {
        assert forall|k: int| 0 <= k < t.len() implies crosses_another(ws, #[trigger] t[k]) by {
            if k > 0 {
                assert(t[k] == s[k - 1]);
            }
        }
    } else {
        let s1 = s.drop_first();
        assert forall|k: int| 0 <= k < s1.len() implies crosses_another(ws, #[trigger] s1[k]) by {
            assert(s1[k] == s[k + 1]);
        }
        lemma_insert_keeps_crossing(ws, s1, x);
        let t1 = insert_by_length(s1, x);
        assert forall|k: int| 0 <= k < t.len() implies crosses_another(ws, #[trigger] t[k]) by {
            if k > 0 {
                assert(t[k] == t1[k - 1]);
            } else {
                assert(t[k] == s[0]);
            }
        }
    }
}

/// Ordering longest first keeps every word crossing another input word.
proof fn lemma_longest_first_keeps_crossing(ws: Seq<Seq<char>>, l: Seq<Seq<char>>)
    requires
        forall|k: int| 0 <= k < l.len() ==> crosses_another(ws, #[trigger] l[k]),
    ensures
        forall|k: int|
            0 <= k < longest_first(l).len() ==> crosses_another(ws, #[trigger] longest_first(l)[k]),
    decreases l.len(),
{
    if l.len() > 0 {
        let l1 = l.drop_last();
        assert forall|k: int| 0 <= k < l1.len() implies crosses_another(ws, #[trigger] l1[k]) by {
            assert(l1[k] == l[k]);
        }
        lemma_longest_first_keeps_crossing(ws, l1);
        assert(crosses_another(ws, l[l.len() - 1]));
        lemma_insert_keeps_crossing(ws, longest_first(l1), l.last());
    }
}

/// A queue's model: each word's characters with the tries it has left.
pub open spec fn pending<'a>(q: Seq<PossibleWord<'a>>) -> Seq<(Seq<char>, nat)> {
    q.map_values(|p: PossibleWord<'a>| (p.value@, p.remaining as nat))
}

/// The queue of `l` with every word at the full retry budget.
pub open spec fn fresh_queue(l: Seq<Seq<char>>) -> Seq<(Seq<char>, nat)> {
    l.map_values(|v: Seq<char>| (v, RETRY_BUDGET as nat))
}

/// The tries left in the queue, each word counting one more than its budget.
pub open spec fn budget(q: Seq<(Seq<char>, nat)>) -> nat
    decreases q.len(),
{
    if q.len() == 0 {
        0
    } else {
        q[0].1 + 1 + budget(q.drop_first())
    }
}

/// The characters in the queue, each word counting one more than its length.
pub open spec fn letters(q: Seq<(Seq<char>, nat)>) -> nat
    decreases q.len(),
{
    if q.len() == 0 {
        0
    } else {
        q[0].0.len() + 1 + letters(q.drop_first())
    }
}

/// Appending a word adds its share to the budget and to the letter count.
pub proof fn lemma_queue_push(q: Seq<(Seq<char>, nat)>, x: (Seq<char>, nat))
    ensures
        budget(q.push(x)) == budget(q) + x.1 + 1,
        letters(q.push(x)) == letters(q) + x.0.len() + 1,
    decreases q.len(),
{
    if q.len() > 0 {
        lemma_queue_push(q.drop_first(), x);
        assert(q.push(x).drop_first() =~= q.drop_first().push(x));
        assert(q.push(x)[0] == q[0]);
    } else {
        assert(q.push(x).drop_first() =~= q);
        assert(q.push(x)[0] == x);
    }
}

/// What the search reports when no placement of the current word led to a full grid: the
/// grid as it stands if it holds a word or nothing is left to place, else no solution.
pub open spec fn fallback(g: GridView, rest: Seq<(Seq<char>, nat)>) -> Option<GridView> {
    if g.words.len() > 0 || rest.len() == 0 {
        Some(g)
    } else {
        None
    }
}

/// The backtracking search from grid `g` with queue `q`. An empty queue gives `g`. Otherwise
/// the first word is taken off; with no placement and budget to spare it goes to the back
/// with one try less; else each placement in turn is committed and the rest searched, the
/// first full grid winning, and `fallback` when none does.
pub open spec fn search(g: GridView, q: Seq<(Seq<char>, nat)>) -> Result<
    Option<GridView>,
    WordError,
>
    decreases budget(q), 1int, 0int,
    via search_decreases
{
    if q.len() == 0 {
        Ok(Some(g))
    } else {
        let rest = q.drop_first();
        match placements(g, q[0].0) {
            Err(e) => Err(e),
            Ok(ps) => if ps.len() == 0 && q[0].1 > 1 {
                search(g, rest.push((q[0].0, (q[0].1 - 1) as nat)))
            } else {
                try_placements(g, ps, rest, 0)
            },
        }
    }
}

/// Commits the placements `ps` from index `i` on, one at a time, and searches on.
pub open spec fn try_placements(
    g: GridView,
    ps: Seq<WordView>,
    rest: Seq<(Seq<char>, nat)>,
    i: int,
) -> Result<Option<GridView>, WordError>
    decreases budget(rest) + 1, 0int, ps.len() - i,
{
    if i < 0 || i >= ps.len() {
        Ok(fallback(g, rest))
    } else {
        match search(g.added(ps[i]), rest) {
            Ok(None) => try_placements(g, ps, rest, i + 1),
            other => other,
        }
    }
}

/// The deferred queue has one try less in its budget.
#[via_fn]
proof fn search_decreases(g: GridView, q: Seq<(Seq<char>, nat)>) {
    if q.len() > 0 {
        lemma_queue_push(q.drop_first(), (q[0].0, (q[0].1 - 1) as nat));
    }
}

/// Whether the result `r` is what the search outcome `s` describes.
pub open spec fn reports<'a>(r: Result<Option<Grid<'a>>, Error>, s: Result<
    Option<GridView>,
    WordError,
>) -> bool {
    match s {
        Err(e) => r == Err::<Option<Grid<'a>>, Error>(Error::GridError(GridError::WordError(e))),
        Ok(None) => r matches Ok(None),
        Ok(Some(g)) => r matches Ok(Some(fg)) && fg@ == g,
    }
}

/// A copy of the queue.
fn copy_queue<'a>(q: &VecDeque<PossibleWord<'a>>) -> (r: VecDeque<PossibleWord<'a>>)
    ensures
        r@ == q@,
{
    let mut out: VecDeque<PossibleWord<'a>> = VecDeque::new();
    let mut i: usize = 0;
    while i < q.len()
        invariant
            i <= q@.len(),
            out@ == q@.subrange(0, i as int),
        decreases q@.len() - i,
    {
        out.push_back(q[i]);
        i = i + 1;
        assert(out@ =~= q@.subrange(0, i as int));
    }
    assert(q@.subrange(0, q@.len() as int) =~= q@);
    out
}

/// The backtracking search (see `search`): places the queued words on `grid` one by one,
/// deferring a word with no placement while its budget lasts, and trying every placement of
/// a word in turn until the rest of the queue can be placed too.
pub fn backtrack<'a>(grid: Grid<'a>, words_to_place: VecDeque<PossibleWord<'a>>) -> (r: Result<
    Option<Grid<'a>>,
    Error,
>)
    requires
        grid@.wf(),
        grid@.anchored(),
        grid@.width() + grid@.height() + letters(pending(words_to_place@)) <= usize::MAX,
    ensures
        reports(r, search(grid@, pending(words_to_place@))),
    decreases budget(pending(words_to_place@)),
{
    let ghost g = grid@;
    let ghost q = pending(words_to_place@);
    let mut queue = words_to_place;
    let current = match queue.pop_front() {
        None => {
            return Ok(Some(grid));
        },
        Some(w) => w,
    };
    let ghost rest = pending(queue@);
    assert(rest =~= q.drop_first());
    let found = match grid.find_valid_placements(current.value) {
        Ok(p) => p,
        Err(e) => {
            return Err(Error::GridError(e));
        },
    };
    let ghost ps = views(found@);
    proof {
        lemma_placements_fit(g, current.value@);
    }
    if found.len() == 0 && current.remaining > 1 {
        let mut deferred = current;
        deferred.remaining = deferred.remaining - 1;
        queue.push_back(deferred);
        proof {
            assert(pending(queue@) =~= rest.push((q[0].0, (q[0].1 - 1) as nat)));
            lemma_queue_push(rest, (q[0].0, (q[0].1 - 1) as nat));
        }
        return backtrack(grid, queue);
    }
    assert(budget(q) == q[0].1 + 1 + budget(q.drop_first()));
    assert(letters(q) == q[0].0.len() + 1 + letters(q.drop_first()));
    let mut i: usize = 0;
    while i < found.len()
        invariant
            g == grid@,
            q == pending(words_to_place@),
            budget(rest) < budget(q),
            letters(rest) + q[0].0.len() + 1 == letters(q),
            g.wf(),
            g.anchored(),
            g.width() + g.height() + letters(q) <= usize::MAX,
            q.len() > 0,
            rest == q.drop_first(),
            rest == pending(queue@),
            ps == views(found@),
            placements(g, q[0].0) == Ok::<Seq<WordView>, WordError>(ps),
            forall|m: int| 0 <= m < ps.len() ==> candidate_fits(g, #[trigger] ps[m], q[0].0),
            i <= found.len(),
            try_placements(g, ps, rest, 0) == try_placements(g, ps, rest, i as int),
        decreases found.len() - i,
    {
        let placement_word = found[i];
        assert(placement_word@ == ps[i as int]);
        assert(candidate_fits(g, ps[i as int], q[0].0));
        let mut new_grid = grid.snapshot();
        match new_grid.add_word(placement_word) {
            Ok(()) => {},
            Err(e) => {
                return Err(Error::GridError(e));
            },
        }
        proof {
            lemma_added_fits(g, ps[i as int]);
        }
        match backtrack(new_grid, copy_queue(&queue)) {
            Err(e) => {
                return Err(e);
            },
            Ok(Some(final_grid)) => {
                return Ok(Some(final_grid));
            },
            Ok(None) => {},
        }
        i = i + 1;
    }
    if grid.words.len() > 0 || queue.len() == 0 {
        Ok(Some(grid))
    } else {
        Ok(None)
    }
}

/// Whether some word of `ws` holds a lowercase character.
pub open spec fn any_lowercase(ws: Seq<Seq<char>>) -> bool {
    exists|i: int| 0 <= i < ws.len() && has_lowercase(#[trigger] ws[i])
}

/// The model of a fresh grid: one blank cell, no words.
pub open spec fn fresh_grid() -> GridView {
    GridView { words: Seq::empty(), board: seq![seq![BLANK]] }
}

/// The outcome of generating a puzzle from `ws`: the search from a fresh grid over the
/// pruned queue.
pub open spec fn generated(ws: Seq<Seq<char>>) -> Result<Option<GridView>, WordError> {
    search(fresh_grid(), fresh_queue(pruned(ws)))
}

/// What `generate` returns for the words `ws`: the lowercase error if any word holds a
/// lowercase character; an error if the words are too long to lay out in memory addresses;
/// otherwise what the search reports.
pub open spec fn generate_outcome<'a>(ws: Seq<Seq<char>>, r: Result<Option<Grid<'a>>, Error>) -> bool {
    if any_lowercase(ws) {
        r == Err::<Option<Grid<'a>>, Error>(Error::WordError(WordError::LowercaseCharactersInSegment))
    } else if letters(fresh_queue(pruned(ws))) + 2 > usize::MAX {
        r matches Err(Error::Custom(_))
    } else {
        reports(r, generated(ws))
    }
}

/// The characters in the queue (see `letters`), if that count fits in a `usize`.
fn queue_letters<'a>(q: &VecDeque<PossibleWord<'a>>) -> (r: Option<usize>)
    ensures
        r matches Some(n) ==> n == letters(pending(q@)),
        r is None ==> letters(pending(q@)) > usize::MAX,
{
    let ghost p = pending(q@);
    let mut i: usize = q.len();
    let mut acc: usize = 0;
    assert(p.subrange(i as int, p.len() as int) =~= Seq::<(Seq<char>, nat)>::empty());
    while i > 0
        invariant
            p == pending(q@),
            i <= q@.len(),
            acc == letters(p.subrange(i as int, p.len() as int)),
        decreases i,
    {
        let ghost tail = p.subrange(i as int, p.len() as int);
        i = i - 1;
        let ghost longer = p.subrange(i as int, p.len() as int);
        assert(longer.drop_first() =~= tail);
        let n = q[i].value.unicode_len();
        proof {
            lemma_letters_tail(p, i as int);
        }
        match acc.checked_add(n) {
            Some(a) => match a.checked_add(1) {
                Some(b) => {
                    acc = b;
                },
                None => {
                    return None;
                },
            },
            None => {
                return None;
            },
        }
    }
    assert(p.subrange(0, p.len() as int) =~= p);
    Some(acc)
}

/// A tail of the queue counts no more letters than a longer tail.
proof fn lemma_letters_tail(p: Seq<(Seq<char>, nat)>, i: int)
    requires
        0 <= i < p.len(),
    ensures
        letters(p.subrange(i, p.len() as int)) >= letters(p.subrange(i + 1, p.len() as int)),
        letters(p) >= letters(p.subrange(i, p.len() as int)),
    decreases i,
{
    assert(p.subrange(i, p.len() as int).drop_first() =~= p.subrange(i + 1, p.len() as int));
    if i > 0 {
        lemma_letters_tail(p, i - 1);
    } else {
        assert(p.subrange(0, p.len() as int) =~= p);
    }
}

/// Generates a puzzle from `words`: refuses any lowercase character, prunes and orders the
/// words, and runs the backtracking search from a fresh grid.
pub fn generate<'a>(words: &[&'a str]) -> (r: Result<Option<Grid<'a>>, Error>)
    ensures
        generate_outcome(texts(words@), r),
{
    let ghost ws = texts(words@);
    let mut i: usize = 0;
    while i < words.len()
        invariant
            ws == texts(words@),
            i <= words.len(),
            forall|k: int| 0 <= k < i ==> !has_lowercase(#[trigger] ws[k]),
        decreases words.len() - i,
    {
        assert(ws[i as int] == words[i as int]@);
        if str_has_lowercase(words[i]) {
            return Err(Error::WordError(WordError::LowercaseCharactersInSegment));
        }
        i = i + 1;
    }
    let words_queue = eliminate_words(words);
    assert(pending(words_queue@) =~= fresh_queue(pruned(ws)));
    match queue_letters(&words_queue) {
        Some(n) if n <= usize::MAX - 2 => {},
        _ => {
            return Err(Error::Custom(String::from_str("The words are too long to lay out.")));
        },
    }
    let initial_grid = Grid::new();
    assert(initial_grid@ == fresh_grid());
    backtrack(initial_grid, words_queue)
}

/// Generation is deterministic: two runs on the same words both fail, both find no solution,
/// or both return grids with the same words and the same board.
pub proof fn lemma_generate_deterministic<'a, 'b>(
    ws: Seq<Seq<char>>,
    r1: Result<Option<Grid<'a>>, Error>,
    r2: Result<Option<Grid<'b>>, Error>,
)
    requires
        generate_outcome(ws, r1),
        generate_outcome(ws, r2),
    ensures
        r1 is Err <==> r2 is Err,
        r1 matches Ok(None) <==> r2 matches Ok(None),
        r1 matches Ok(Some(g1)) ==> r2 matches Ok(Some(g2)) && g1@ == g2@,
{
}

} // verus!
