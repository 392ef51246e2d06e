use vstd::prelude::*;

use crate::dictionary::{classify, push_char, Dictionary};
use crate::grid::{col_step, flat_index, lemma_flat_index_bounds, row_step, Grid};
use crate::solution::Solution;

verus! {

/// One way a word was found: the cells it was spelled along, in order, the
/// word itself, and the sum of the values of those cells.
pub struct Found {
    pub path: Seq<(int, int)>,
    pub word: Seq<char>,
    pub score: int,
}

/// Number of cells not yet marked.
pub open spec fn count_unmarked(visited: Seq<bool>) -> nat
    decreases visited.len(),
{
    if visited.len() == 0 {
        0
    } else {
        count_unmarked(visited.drop_last()) + if visited.last() {
            0nat
        } else {
            1nat
        }
    }
}

proof fn lemma_mark_decreases(visited: Seq<bool>, i: int)
    requires
        0 <= i < visited.len(),
        !visited[i],
    ensures
        count_unmarked(visited.update(i, true)) < count_unmarked(visited),
    decreases visited.len(),
{
    let v2 = visited.update(i, true);
    if i == visited.len() - 1 {
        assert(v2.drop_last() =~= visited.drop_last());
    } else {
        assert(v2.drop_last() =~= visited.drop_last().update(i, true));
        lemma_mark_decreases(visited.drop_last(), i);
    }
}

/// Position of `cell` in the row-major order of `g`.
pub open spec fn cell_index(g: Grid, cell: (int, int)) -> int {
    flat_index(g.width as int, cell.0, cell.1)
}

/// The neighbour of `cell` in direction `k`.
pub open spec fn step(cell: (int, int), k: int) -> (int, int) {
    (cell.0 + row_step(k), cell.1 + col_step(k))
}

/// Whether the search may move from the end of a path to `next`: it lies in
/// the grid and is not yet marked as used.
pub open spec fn can_enter(g: Grid, visited: Seq<bool>, next: (int, int)) -> bool {
    &&& g.in_bounds(next.0, next.1)
    &&& 0 <= cell_index(g, next) < visited.len()
    &&& !visited[cell_index(g, next)]
}

/// What the search records from the path `path`, which spells `word` and is
/// worth `score`, with the cells of `visited` used by the path before its last
/// cell: the path itself where `word` is a word, then, unless `word` is
/// terminal, what it records from each extension to an unused neighbour, in
/// the order NW, N, NE, W, E, SW, S, SE.
pub open spec fn explore(
    g: Grid,
    words: Set<Seq<char>>,
    path: Seq<(int, int)>,
    visited: Seq<bool>,
    word: Seq<char>,
    score: int,
) -> Seq<Found>
    decreases count_unmarked(visited.update(cell_index(g, path.last()), true)), 9int,
{
    let own = if classify(words, word).0 {
        seq![Found { path, word, score }]
    } else {
        Seq::empty()
    };
    if classify(words, word).1 {
        own
    } else {
        own + explore_dirs(
            g,
            words,
            path,
            visited.update(cell_index(g, path.last()), true),
            word,
            score,
            0,
        )
    }
}

/// What the search records from the extensions of `path` in directions `k`
/// to 7, with `visited` marking every cell of `path`.
pub open spec fn explore_dirs(
    g: Grid,
    words: Set<Seq<char>>,
    path: Seq<(int, int)>,
    visited: Seq<bool>,
    word: Seq<char>,
    score: int,
    k: int,
) -> Seq<Found>
    decreases count_unmarked(visited), 8 - k,
    via explore_dirs_decreases
{
    if k >= 8 {
        Seq::empty()
    } else {
        let next = step(path.last(), k);
        let rest = explore_dirs(g, words, path, visited, word, score, k + 1);
        if can_enter(g, visited, next) {
            let c = g@[next.0][next.1];
            explore(g, words, path.push(next), visited, word.push(c.letter), score + c.value, )
                + rest
        } else {
            rest
        }
    }
}

#[via_fn]
proof fn explore_dirs_decreases(
    g: Grid,
    words: Set<Seq<char>>,
    path: Seq<(int, int)>,
    visited: Seq<bool>,
    word: Seq<char>,
    score: int,
    k: int,
) {
    if k < 8 {
        let next = step(path.last(), k);
        if can_enter(g, visited, next) {
            lemma_mark_decreases(visited, cell_index(g, next));
            assert(path.push(next).last() == next);
        }
    }
}

/// The search from the single cell `(row, col)`, with nothing used before it.
pub open spec fn explore_from(g: Grid, words: Set<Seq<char>>, row: int, col: int) -> Seq<Found> {
    let c = g@[row][col];
    explore(
        g,
        words,
        seq![(row, col)],
        Seq::new((g.width * g.height) as nat, |i: int| false),
        seq![c.letter],
        c.value as int,
    )
}

/// What the searches from cells `0 .. col` of row `row` record, in order.
pub open spec fn explore_row(g: Grid, words: Set<Seq<char>>, row: int, col: int) -> Seq<Found>
    decreases col,
{
    if col <= 0 {
        Seq::empty()
    } else {
        explore_row(g, words, row, col - 1) + explore_from(g, words, row, col - 1)
    }
}

/// What the searches from every cell of rows `0 .. row` record, row by row.
pub open spec fn explore_rows(g: Grid, words: Set<Seq<char>>, row: int) -> Seq<Found>
    decreases row,
{
    if row <= 0 {
        Seq::empty()
    } else {
        explore_rows(g, words, row - 1) + explore_row(g, words, row - 1, g.width as int)
    }
}

/// Everything the solver records on grid `g` with a dictionary of `words`:
/// the searches from every cell, in row-major order.
pub open spec fn solve(g: Grid, words: Set<Seq<char>>) -> Seq<Found> {
    explore_rows(g, words, g.height as int)
}

/// The words of a list of records.
pub open spec fn words_of(found: Seq<Found>) -> Seq<Seq<char>> {
    found.map_values(|f: Found| f.word)
}

/// The sum of the scores of a list of records.
pub open spec fn total_of(found: Seq<Found>) -> int
    decreases found.len(),
{
    if found.len() == 0 {
        0
    } else {
        total_of(found.drop_last()) + found.last().score
    }
}

proof fn lemma_total_concat(a: Seq<Found>, b: Seq<Found>)
    ensures
        total_of(a + b) == total_of(a) + total_of(b),
    decreases b.len(),
{
    if b.len() > 0 {
        assert((a + b).drop_last() =~= a + b.drop_last());
        lemma_total_concat(a, b.drop_last());
    } else {
        assert(a + b =~= a);
    }
}

proof fn lemma_words_concat(a: Seq<Found>, b: Seq<Found>)
    ensures
        words_of(a + b) == words_of(a) + words_of(b),
{
    assert(words_of(a + b) =~= words_of(a) + words_of(b));
}

/// Every score in `found` is at least `low`.
pub open spec fn scores_at_least(found: Seq<Found>, low: int) -> bool {
    forall|i: int| 0 <= i < found.len() ==> #[trigger] found[i].score >= low
}

proof fn lemma_total_at_least(found: Seq<Found>, low: int)
    requires
        scores_at_least(found, low),
        low >= 0,
    ensures
        total_of(found) >= 0,
        found.len() > 0 ==> total_of(found) >= low,
    decreases found.len(),
{
    if found.len() > 0 {
        lemma_total_at_least(found.drop_last(), low);
        assert(found.drop_last().len() > 0 ==> found.drop_last()[0] == found[0]);
    }
}

proof fn lemma_scores_concat(a: Seq<Found>, b: Seq<Found>, low: int)
    requires
        scores_at_least(a, low),
        scores_at_least(b, low),
    ensures
        scores_at_least(a + b, low),
{
    assert forall|i: int| 0 <= i < (a + b).len() implies #[trigger] (a + b)[i].score >= low by {
        if i >= a.len() {
            assert((a + b)[i] == b[i - a.len()]);
        }
    }
}

/// Every path the search records is worth at least the path it started from.
proof fn lemma_explore_scores(
    g: Grid,
    words: Set<Seq<char>>,
    path: Seq<(int, int)>,
    visited: Seq<bool>,
    word: Seq<char>,
    score: int,
)
    ensures
        scores_at_least(explore(g, words, path, visited, word, score), score),
    decreases count_unmarked(visited.update(cell_index(g, path.last()), true)), 9int,
{
    let own = if classify(words, word).0 {
        seq![Found { path, word, score }]
    } else {
        Seq::<Found>::empty()
    };
    if !classify(words, word).1 {
        let marked = visited.update(cell_index(g, path.last()), true);
        lemma_explore_dirs_scores(g, words, path, marked, word, score, 0);
        lemma_scores_concat(own, explore_dirs(g, words, path, marked, word, score, 0), score);
    }
}

proof fn lemma_explore_dirs_scores(
    g: Grid,
    words: Set<Seq<char>>,
    path: Seq<(int, int)>,
    visited: Seq<bool>,
    word: Seq<char>,
    score: int,
    k: int,
)
    ensures
        scores_at_least(explore_dirs(g, words, path, visited, word, score, k), score),
    decreases count_unmarked(visited), 8 - k,
{
    if k < 8 {
        let next = step(path.last(), k);
        lemma_explore_dirs_scores(g, words, path, visited, word, score, k + 1);
        if can_enter(g, visited, next) {
            let c = g@[next.0][next.1];
            lemma_mark_decreases(visited, cell_index(g, next));
            assert(path.push(next).last() == next);
            lemma_explore_scores(g, words, path.push(next), visited, word.push(c.letter), score + c.value);
            lemma_scores_concat(
                explore(g, words, path.push(next), visited, word.push(c.letter), score + c.value),
                explore_dirs(g, words, path, visited, word, score, k + 1),
                score,
            );
        }
    }
}

proof fn lemma_row_scores(g: Grid, words: Set<Seq<char>>, row: int, col: int)
    ensures
        scores_at_least(explore_row(g, words, row, col), 0),
    decreases col,
{
    if col > 0 {
        lemma_row_scores(g, words, row, col - 1);
        let c = g@[row][col - 1];
        lemma_explore_scores(
            g,
            words,
            seq![(row, col - 1)],
            Seq::new((g.width * g.height) as nat, |i: int| false),
            seq![c.letter],
            c.value as int,
        );
        lemma_scores_concat(explore_row(g, words, row, col - 1), explore_from(g, words, row, col - 1), 0);
    }
}

proof fn lemma_rows_scores(g: Grid, words: Set<Seq<char>>, row: int)
    ensures
        scores_at_least(explore_rows(g, words, row), 0),
    decreases row,
{
    if row > 0 {
        lemma_rows_scores(g, words, row - 1);
        lemma_row_scores(g, words, row - 1, g.width as int);
        lemma_scores_concat(explore_rows(g, words, row - 1), explore_row(g, words, row - 1, g.width as int), 0);
    }
}

proof fn lemma_row_grows(g: Grid, words: Set<Seq<char>>, row: int, col: int, upto: int)
    requires
        0 <= col <= upto,
    ensures
        total_of(explore_row(g, words, row, col)) <= total_of(explore_row(g, words, row, upto)),
    decreases upto,
{
    if col < upto {
        lemma_row_grows(g, words, row, col, upto - 1);
        lemma_total_concat(explore_row(g, words, row, upto - 1), explore_from(g, words, row, upto - 1));
        lemma_row_scores(g, words, row, upto);
        let f = explore_from(g, words, row, upto - 1);
        assert(scores_at_least(f, 0)) by {
            assert forall|i: int| 0 <= i < f.len() implies #[trigger] f[i].score >= 0 by {
                assert(explore_row(g, words, row, upto)[explore_row(g, words, row, upto - 1).len() + i] == f[i]);
            }
        }
        lemma_total_at_least(f, 0);
    }
}

proof fn lemma_rows_grow(g: Grid, words: Set<Seq<char>>, row: int, upto: int)
    requires
        0 <= row <= upto,
    ensures
        total_of(explore_rows(g, words, row)) <= total_of(explore_rows(g, words, upto)),
    decreases upto,
{
    if row < upto {
        lemma_rows_grow(g, words, row, upto - 1);
        let r = explore_row(g, words, upto - 1, g.width as int);
        lemma_total_concat(explore_rows(g, words, upto - 1), r);
        lemma_row_scores(g, words, upto - 1, g.width as int);
        lemma_total_at_least(r, 0);
    }
}

/// A fresh marking of `n` cells, none of them used.
fn unvisited(n: usize) -> (v: Vec<bool>)
    ensures
        v@ == Seq::new(n as nat, |i: int| false),
{
    let mut v: Vec<bool> = Vec::new();
    let mut i: usize = 0;
    while i < n
        invariant
            i <= n,
            v@ == Seq::new(i as nat, |j: int| false),
        decreases n - i,
    {
        v.push(false);
        i = i + 1;
        assert(v@ =~= Seq::new(i as nat, |j: int| false));
    }
    v
}

/// Two distinct cells that touch, side by side or corner to corner.
pub open spec fn adjacent(a: (int, int), b: (int, int)) -> bool {
    &&& a != b
    &&& -1 <= a.0 - b.0 <= 1
    &&& -1 <= a.1 - b.1 <= 1
}

/// The letters of the cells of `path`, in order.
pub open spec fn spelled(g: Grid, path: Seq<(int, int)>) -> Seq<char> {
    path.map_values(|p: (int, int)| g@[p.0][p.1].letter)
}

/// The sum of the values of the cells of `path`.
pub open spec fn path_value(g: Grid, path: Seq<(int, int)>) -> int
    decreases path.len(),
{
    if path.len() == 0 {
        0
    } else {
        path_value(g, path.drop_last()) + g@[path.last().0][path.last().1].value
    }
}

/// A non-empty path of cells of `g`, each adjacent to the next, that uses no
/// cell twice.
pub open spec fn is_simple_path(g: Grid, path: Seq<(int, int)>) -> bool {
    &&& path.len() > 0
    &&& forall|i: int| 0 <= i < path.len() ==> g.in_bounds(#[trigger] path[i].0, path[i].1)
    &&& path.no_duplicates()
    &&& forall|i: int| 0 <= i < path.len() - 1 ==> adjacent(#[trigger] path[i], path[i + 1])
}

/// A record is faithful to the grid and the dictionary: its word is a word
/// of `words`, and its path is simple, spells the word and is worth its score.
pub open spec fn faithful(g: Grid, words: Set<Seq<char>>, f: Found) -> bool {
    &&& words.contains(f.word)
    &&& is_simple_path(g, f.path)
    &&& f.word == spelled(g, f.path)
    &&& f.score == path_value(g, f.path)
}

/// Every record of `found` is faithful to `g` and `words`.
pub open spec fn all_faithful(g: Grid, words: Set<Seq<char>>, found: Seq<Found>) -> bool {
    forall|i: int| 0 <= i < found.len() ==> faithful(g, words, #[trigger] found[i])
}

proof fn lemma_faithful_concat(g: Grid, words: Set<Seq<char>>, a: Seq<Found>, b: Seq<Found>)
    requires
        all_faithful(g, words, a),
        all_faithful(g, words, b),
    ensures
        all_faithful(g, words, a + b),
{
    assert forall|i: int| 0 <= i < (a + b).len() implies faithful(g, words, #[trigger] (a + b)[i]) by {
        if i >= a.len() {
            assert((a + b)[i] == b[i - a.len()]);
        } else {
            assert((a + b)[i] == a[i]);
        }
    }
}

/// The state of a search at the end of `path`: the path is simple, spells
/// `word`, is worth `score`, and `visited` marks every cell of it but,
/// unless `all` is set, its last.
pub open spec fn search_state(
    g: Grid,
    path: Seq<(int, int)>,
    visited: Seq<bool>,
    word: Seq<char>,
    score: int,
    all: bool,
) -> bool {
    &&& is_simple_path(g, path)
    &&& word == spelled(g, path)
    &&& score == path_value(g, path)
    &&& visited.len() == g.width * g.height
    &&& forall|i: int|
        0 <= i < path.len() && (all || i < path.len() - 1) ==> #[trigger] visited[cell_index(g, path[i])]
}

proof fn lemma_explore_faithful(
    g: Grid,
    words: Set<Seq<char>>,
    path: Seq<(int, int)>,
    visited: Seq<bool>,
    word: Seq<char>,
    score: int,
)
    requires
        g.well_formed(),
        search_state(g, path, visited, word, score, false),
    ensures
        all_faithful(g, words, explore(g, words, path, visited, word, score)),
    decreases count_unmarked(visited.update(cell_index(g, path.last()), true)), 9int,
{
    let own = if classify(words, word).0 {
        seq![Found { path, word, score }]
    } else {
        Seq::<Found>::empty()
    };
    assert(all_faithful(g, words, own));
    if !classify(words, word).1 {
        let last = path.last();
        let marked = visited.update(cell_index(g, last), true);
        assert(g.in_bounds(path[path.len() - 1].0, path[path.len() - 1].1));
        lemma_flat_index_bounds(g.width as int, g.height as int, last.0, last.1);
        assert forall|i: int| 0 <= i < path.len() implies #[trigger] marked[cell_index(g, path[i])] by {
            if i < path.len() - 1 {
                assert(visited[cell_index(g, path[i])]);
            }
            assert(g.in_bounds(path[i].0, path[i].1));
            lemma_flat_index_bounds(g.width as int, g.height as int, path[i].0, path[i].1);
        }
        assert(search_state(g, path, marked, word, score, true));
        lemma_explore_dirs_faithful(g, words, path, marked, word, score, 0);
        lemma_faithful_concat(g, words, own, explore_dirs(g, words, path, marked, word, score, 0));
    }
}

proof fn lemma_explore_dirs_faithful(
    g: Grid,
    words: Set<Seq<char>>,
    path: Seq<(int, int)>,
    visited: Seq<bool>,
    word: Seq<char>,
    score: int,
    k: int,
)
    requires
        g.well_formed(),
        search_state(g, path, visited, word, score, true),
    ensures
        all_faithful(g, words, explore_dirs(g, words, path, visited, word, score, k)),
    decreases count_unmarked(visited), 8 - k,
{
    if k < 8 {
        let next = step(path.last(), k);
        lemma_explore_dirs_faithful(g, words, path, visited, word, score, k + 1);
        if can_enter(g, visited, next) {
            let c = g@[next.0][next.1];
            let longer = path.push(next);
            lemma_mark_decreases(visited, cell_index(g, next));
            assert(longer.last() == next);
            assert(!path.contains(next)) by {
                if path.contains(next) {
                    let i = choose|i: int| 0 <= i < path.len() && path[i] == next;
                    assert(visited[cell_index(g, path[i])]);
                }
            }
            assert(is_simple_path(g, longer)) by {
                assert forall|i: int, j: int| 0 <= i < longer.len() && 0 <= j < longer.len() && i != j
                    implies longer[i] != longer[j] by {
                    if i < path.len() && j < path.len() {
                        assert(path[i] != path[j]);
                    } else if i < path.len() {
                        assert(path.contains(longer[i]));
                    } else {
                        assert(path.contains(longer[j]));
                    }
                }
                assert forall|i: int| 0 <= i < longer.len() - 1 implies adjacent(#[trigger] longer[i], longer[i + 1]) by {
                    if i < path.len() - 1 {
                        assert(longer[i] == path[i] && longer[i + 1] == path[i + 1]);
                    } else {
                        assert(longer[i] == path.last());
                        assert(longer[i + 1] == next);
                    }
                }
                assert forall|i: int| 0 <= i < longer.len() implies g.in_bounds(#[trigger] longer[i].0, longer[i].1) by {
                    if i < path.len() {
                        assert(longer[i] == path[i]);
                    }
                }
            }
            assert(spelled(g, longer) =~= word.push(c.letter));
            assert(longer.drop_last() =~= path);
            assert(search_state(g, longer, visited, word.push(c.letter), score + c.value, false)) by {
                assert forall|i: int| 0 <= i < longer.len() - 1 implies #[trigger] visited[cell_index(g, longer[i])] by {
                    assert(longer[i] == path[i]);
                }
            }
            lemma_explore_faithful(g, words, longer, visited, word.push(c.letter), score + c.value);
            lemma_faithful_concat(
                g,
                words,
                explore(g, words, longer, visited, word.push(c.letter), score + c.value),
                explore_dirs(g, words, path, visited, word, score, k + 1),
            );
        }
    }
}

proof fn lemma_row_faithful(g: Grid, words: Set<Seq<char>>, row: int, col: int)
    requires
        g.well_formed(),
        0 <= row < g.height,
        col <= g.width,
    ensures
        all_faithful(g, words, explore_row(g, words, row, col)),
    decreases col,
{
    if col > 0 {
        lemma_row_faithful(g, words, row, col - 1);
        let c = g@[row][col - 1];
        let start = seq![(row, col - 1)];
        assert(spelled(g, start) =~= seq![c.letter]);
        assert(start.drop_last() =~= Seq::<(int, int)>::empty());
        assert(path_value(g, start.drop_last()) == 0);
        assert(path_value(g, start) == c.value);
        lemma_explore_faithful(
            g,
            words,
            start,
            Seq::new((g.width * g.height) as nat, |i: int| false),
            seq![c.letter],
            c.value as int,
        );
        lemma_faithful_concat(g, words, explore_row(g, words, row, col - 1), explore_from(g, words, row, col - 1));
    }
}

proof fn lemma_rows_faithful(g: Grid, words: Set<Seq<char>>, row: int)
    requires
        g.well_formed(),
        row <= g.height,
    ensures
        all_faithful(g, words, explore_rows(g, words, row)),
    decreases row,
{
    if row > 0 {
        lemma_rows_faithful(g, words, row - 1);
        lemma_row_faithful(g, words, row - 1, g.width as int);
        lemma_faithful_concat(g, words, explore_rows(g, words, row - 1), explore_row(g, words, row - 1, g.width as int));
    }
}

/// Every word the solver records is a word of the dictionary, spelled along
/// a path of adjacent grid cells that uses no cell twice, and is scored with
/// the sum of the values of exactly those cells.
pub proof fn found_paths_are_simple(g: Grid, words: Set<Seq<char>>)
    requires
        g.well_formed(),
    ensures
        all_faithful(g, words, solve(g, words)),
{
    lemma_rows_faithful(g, words, g.height as int);
}

/// Row and column of the neighbour of `(row, col)` in direction `k`.
fn neighbor_position(row: usize, col: usize, k: usize) -> (r: (usize, usize))
    requires
        k < 8,
        0 <= row + row_step(k as int) <= usize::MAX,
        0 <= col + col_step(k as int) <= usize::MAX,
    ensures
        r.0 == row + row_step(k as int),
        r.1 == col + col_step(k as int),
{
    let r = if k < 3 {
        row - 1
    } else if k < 5 {
        row
    } else {
        row + 1
    };
    let c = if k == 0 || k == 3 || k == 5 {
        col - 1
    } else if k == 1 || k == 6 {
        col
    } else {
        col + 1
    };
    (r, c)
}

/// Finds the words of a grid with a dictionary.
pub struct Solver<T: Dictionary> {
    dictionary: T,
    grid: Grid,
}

impl<T: Dictionary> Solver<T> {
    /// The grid searched.
    pub closed spec fn board(&self) -> Grid {
        self.grid
    }

    /// The words of the dictionary searched with.
    pub closed spec fn lexicon(&self) -> Set<Seq<char>> {
        self.dictionary.words()
    }

    /// Both parts are well formed.
    pub closed spec fn well_formed(&self) -> bool {
        self.dictionary.well_formed() && self.grid.well_formed()
    }

    /// A solver for `grid` with `dictionary`.
    pub fn new(dictionary: T, grid: Grid) -> (s: Self)
        ensures
            s.board() == grid,
            s.lexicon() == dictionary.words(),
            s.well_formed() == (dictionary.well_formed() && grid.well_formed()),
    {
        Solver::<T> { dictionary, grid }
    }

    /// Searches from the last cell `(row, col)` of `path`, which spells
    /// `word_acc` and is worth `score`; `visited` marks the cells used before
    /// it and is handed back as it came.
    fn find_words_from(
        &self,
        row: usize,
        col: usize,
        word_acc: &str,
        score: u32,
        visited: &mut Vec<bool>,
        trail: Ghost<Seq<(int, int)>>,
    ) -> (soln: Solution)
        requires
            self.well_formed(),
            row < self.grid.height,
            col < self.grid.width,
            trail@.len() > 0,
            trail@.last() == (row as int, col as int),
            old(visited)@.len() == self.grid.width * self.grid.height,
            !old(visited)@[cell_index(self.grid, (row as int, col as int))],
            total_of(
                explore(self.grid, self.dictionary.words(), trail@, old(visited)@, word_acc@, score as int),
            ) <= u32::MAX,
        ensures
            final(visited)@ == old(visited)@,
            soln.words() == words_of(
                explore(self.grid, self.dictionary.words(), trail@, old(visited)@, word_acc@, score as int),
            ),
            soln.total() == total_of(
                explore(self.grid, self.dictionary.words(), trail@, old(visited)@, word_acc@, score as int),
            ),
        decreases count_unmarked(old(visited)@.update(cell_index(self.grid, trail@.last()), true)),
    {
        let ghost path = trail@;
        let ghost g = self.grid;
        let ghost words = self.dictionary.words();
        let ghost all = explore(g, words, path, visited@, word_acc@, score as int);
        let ghost own = if classify(words, word_acc@).0 {
            seq![Found { path, word: word_acc@, score: score as int }]
        } else {
            Seq::<Found>::empty()
        };
        let _cell_count = visited.len();
        let mut soln = Solution::default();
        let (is_word, is_terminal) = T::is_word(&self.dictionary, word_acc);
        proof {
            lemma_explore_scores(g, words, path, visited@, word_acc@, score as int);
            lemma_total_at_least(all, score as int);
        }
        if is_word {
            proof {
                assert(all[0].score == score);
                assert(all.len() > 0);
            }
            soln.found(word_acc.to_owned(), score);
            assert(soln.words() =~= words_of(own));
        } else {
            assert(soln.words() =~= words_of(own));
        }
        assert(total_of(own) == soln.total()) by {
            if is_word {
                assert(own.drop_last() =~= Seq::<Found>::empty());
                assert(total_of(own.drop_last()) == 0);
            }
        }
        if !is_terminal {
            let ghost start = visited@;
            let ghost marked = start.update(cell_index(g, path.last()), true);
            proof {
                lemma_total_concat(own, explore_dirs(g, words, path, marked, word_acc@, score as int, 0));
                lemma_words_concat(own, explore_dirs(g, words, path, marked, word_acc@, score as int, 0));
                lemma_explore_dirs_scores(g, words, path, marked, word_acc@, score as int, 0);
                crate::grid::lemma_flat_index_bounds(g.width as int, g.height as int, row as int, col as int);
            }
            let width = self.grid.width;
            let idx = row * width + col;
            visited.set(idx, true);
            let possible_neighbors = self.grid.find_neighbors(row, col);
            let mut k: usize = 0;
            while k < 8
                invariant
                    self.well_formed(),
                    g == self.grid,
                    words == self.dictionary.words(),
                    width == g.width,
                    row < g.height,
                    col < g.width,
                    path.len() > 0,
                    path.last() == (row as int, col as int),
                    k <= 8,
                    visited@ == marked,
                    marked.len() == g.width * g.height,
                    g.width * g.height <= usize::MAX,
                    marked == start.update(cell_index(g, path.last()), true),
                    start == old(visited)@,
                    path == trail@,
                    forall|j: int| 0 <= j < 8 ==> #[trigger] possible_neighbors@[j] == g.neighbor(row as int, col as int, j),
                    soln.words() + words_of(explore_dirs(g, words, path, marked, word_acc@, score as int, k as int))
                        == words_of(all),
                    soln.total() + total_of(explore_dirs(g, words, path, marked, word_acc@, score as int, k as int))
                        == total_of(all),
                    total_of(all) <= u32::MAX,
                    scores_at_least(explore_dirs(g, words, path, marked, word_acc@, score as int, k as int), score as int),
                    soln.total() >= 0,
                decreases 8 - k,
            {
                let ghost next = step(path.last(), k as int);
                let ghost rest = explore_dirs(g, words, path, marked, word_acc@, score as int, k + 1);
                proof {
                    lemma_explore_dirs_scores(g, words, path, marked, word_acc@, score as int, k + 1);
                    lemma_total_at_least(rest, score as int);
                }
                match possible_neighbors[k] {
                    Some(l) => {
                        let (nr, nc) = neighbor_position(row, col, k);
                        proof {
                            crate::grid::lemma_flat_index_bounds(g.width as int, g.height as int, nr as int, nc as int);
                        }
                        if !visited[nr * width + nc] {
                            assert(can_enter(g, marked, next));
                            let ghost c = g@[next.0][next.1];
                            let ghost sub = explore(g, words, path.push(next), marked, word_acc@.push(c.letter), score + c.value);
                            proof {
                                lemma_total_concat(sub, rest);
                                lemma_words_concat(sub, rest);
                                lemma_explore_scores(g, words, path.push(next), marked, word_acc@.push(c.letter), score + c.value);
                                lemma_total_at_least(sub, score + c.value);
                                lemma_mark_decreases(marked, cell_index(g, next));
                                assert(path.push(next).last() == next);
                            }
                            match score.checked_add(l.value) {
                                Some(s2) => {
                                    let mut w = word_acc.to_owned();
                                    push_char(&mut w, l.letter);
                                    let found = self.find_words_from(nr, nc, w.as_str(), s2, visited, Ghost(path.push(next)));
                                    soln.add_soln(&found);
                                    assert(soln.words() + words_of(rest) =~= words_of(all));
                                },
                                None => {
                                    assert(sub.len() == 0);
                                    assert(sub + rest =~= rest);
                                },
                            }
                        } else {
                            assert(!can_enter(g, marked, next));
                        }
                    },
                    None => {
                        assert(!can_enter(g, marked, next));
                    },
                }
                k = k + 1;
            }
            visited.set(idx, false);
            assert(visited@ =~= start);
        } else {
            assert(all == own);
            assert(soln.words() =~= words_of(all));
        }
        soln
    }

    /// Runs the search from every cell of the grid, row by row, and gathers
    /// what each finds into one solution.
    pub fn solve_grid(self) -> (r: Solution)
        requires
            self.well_formed(),
            total_of(solve(self.board(), self.lexicon())) <= u32::MAX,
        ensures
            r.words() == words_of(solve(self.board(), self.lexicon())),
            r.total() == total_of(solve(self.board(), self.lexicon())),
    {
        let ghost g = self.grid;
        let ghost words = self.dictionary.words();
        let width = self.grid.width;
        let height = self.grid.height;
        let cells = self.grid.cells.len();
        let mut final_solution = Solution::default();
        assert(final_solution.words() =~= words_of(explore_rows(g, words, 0)));
        let mut row: usize = 0;
        while row < height
            invariant
                self.well_formed(),
                g == self.grid,
                words == self.dictionary.words(),
                width == g.width,
                height == g.height,
                cells == width * height,
                row <= height,
                total_of(explore_rows(g, words, height as int)) <= u32::MAX,
                final_solution.words() == words_of(explore_rows(g, words, row as int)),
                final_solution.total() == total_of(explore_rows(g, words, row as int)),
            decreases height - row,
        {
            let mut col: usize = 0;
            let ghost done = explore_rows(g, words, row as int);
            assert(done + explore_row(g, words, row as int, 0) =~= done);
            while col < width
                invariant
                    self.well_formed(),
                    g == self.grid,
                    words == self.dictionary.words(),
                    width == g.width,
                    height == g.height,
                    cells == width * height,
                    row < height,
                    col <= width,
                    done == explore_rows(g, words, row as int),
                    total_of(explore_rows(g, words, height as int)) <= u32::MAX,
                    final_solution.words() == words_of(done + explore_row(g, words, row as int, col as int)),
                    final_solution.total() == total_of(done + explore_row(g, words, row as int, col as int)),
                decreases width - col,
            {
                let start = self.grid.get(row, col);
                let mut word = String::new();
                push_char(&mut word, start.letter);
                let mut visited = unvisited(cells);
                let ghost before = explore_row(g, words, row as int, col as int);
                let ghost here = explore_from(g, words, row as int, col as int);
                let ghost first = seq![(row as int, col as int)];
                proof {
                    assert(word@ =~= seq![start.letter]);
                    crate::grid::lemma_flat_index_bounds(g.width as int, g.height as int, row as int, col as int);
                    lemma_row_grows(g, words, row as int, col as int + 1, g.width as int);
                    lemma_rows_grow(g, words, row as int + 1, g.height as int);
                    lemma_total_concat(done, explore_row(g, words, row as int, g.width as int));
                    lemma_total_concat(done, before + here);
                    lemma_total_concat(before, here);
                    lemma_total_concat(done, before);
                    lemma_rows_scores(g, words, row as int);
                    lemma_total_at_least(done, 0);
                    lemma_row_scores(g, words, row as int, col as int);
                    lemma_total_at_least(before, 0);
                    lemma_words_concat(done + before, here);
                    lemma_words_concat(done, before);
                    lemma_words_concat(done, before + here);
                    assert(done + (before + here) =~= (done + before) + here);
                }
                let found = self.find_words_from(
                    row,
                    col,
                    word.as_str(),
                    start.value,
                    &mut visited,
                    Ghost(first),
                );
                final_solution.add_soln(&found);
                col = col + 1;
            }
            assert(explore_rows(g, words, row + 1) == done + explore_row(g, words, row as int, width as int));
            row = row + 1;
        }
        final_solution
    }
}

} // verus!
