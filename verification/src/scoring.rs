//! Scoring a move: reading the words that the placed tiles form and
//! counting their letters with the premium squares under the new tiles.

use vstd::prelude::*;
use vstd::string::*;
use crate::board::{Board, BoardModel, Direction, Premium};
use crate::tiles::{LetterPoints, letter_points, letter_value};
use crate::text::{byte_len, push_char};

verus! {

/// The square at `pos` along `line` in direction `dir`, as (row, column).
pub open spec fn at(dir: Direction, line: int, pos: int) -> (int, int) {
    match dir {
        Direction::Across => (line, pos),
        Direction::Down => (pos, line),
    }
}

/// The tile at `pos` along `line`, `None` off the board.
pub open spec fn tile_along(b: BoardModel, dir: Direction, line: int, pos: int) -> Option<Seq<char>> {
    b.tile_spec(at(dir, line, pos).0, at(dir, line, pos).1)
}

/// Walking back from `pos` along `line` over occupied squares: the first square of the run.
pub open spec fn run_start(b: BoardModel, dir: Direction, line: int, pos: int) -> int
    decreases pos,
{
    if pos >= 1 && tile_along(b, dir, line, pos - 1) is Some {
        run_start(b, dir, line, pos - 1)
    } else {
        pos
    }
}

/// The letters of the occupied squares from `pos` on along `line`, up to the first empty square.
pub open spec fn run_from(b: BoardModel, dir: Direction, line: int, pos: int) -> Seq<char>
    decreases b.size - pos,
{
    if 0 <= pos < b.size && tile_along(b, dir, line, pos) is Some {
        tile_along(b, dir, line, pos).unwrap() + run_from(b, dir, line, pos + 1)
    } else {
        Seq::empty()
    }
}

/// The line and position of square (row, col) in direction `dir`.
pub open spec fn line_pos(dir: Direction, row: int, col: int) -> (int, int) {
    match dir {
        Direction::Across => (row, col),
        Direction::Down => (col, row),
    }
}

/// The word through square (row, col) in direction `dir`: the letters of
/// the run of occupied squares that reaches back from it.
pub open spec fn word_through(b: BoardModel, row: int, col: int, dir: Direction) -> Seq<char> {
    let lp = line_pos(dir, row, col);
    run_from(b, dir, lp.0, run_start(b, dir, lp.0, lp.1))
}

/// The square where the run of tiles through (row, col) in direction `dir`
/// begins: the first square of the word that passes through it.
pub open spec fn start_square(b: BoardModel, row: int, col: int, dir: Direction) -> (int, int) {
    let lp = line_pos(dir, row, col);
    at(dir, lp.0, run_start(b, dir, lp.0, lp.1))
}

/// The points of a letter: its value, 1 for a character outside the distribution.
pub open spec fn char_points(c: char) -> int {
    match letter_value(c) {
        Some(v) => v as int,
        None => 1,
    }
}

proof fn lemma_cross_total_bounds(b: BoardModel, ps: Seq<(usize, usize, String)>, dir: Direction, k: int)
    ensures
        0 <= cross_total(b, ps, dir, k),
    decreases k,
{
    if k > 0 {
        lemma_cross_total_bounds(b, ps, dir, k - 1);
        if forms_cross_word(b, ps[k - 1], dir) {
            let w = cross_word_of(b, ps[k - 1], dir);
            lemma_tally_bounds(b, w, single_square(ps[k - 1]), cross_dir(dir), cross_start(b, ps[k - 1], dir), w.len() as int);
        }
    }
}

proof fn lemma_cross_total_monotone(b: BoardModel, ps: Seq<(usize, usize, String)>, dir: Direction, j: int, k: int)
    requires
        j <= k,
    ensures
        cross_total(b, ps, dir, j) <= cross_total(b, ps, dir, k),
    decreases k - j,
{
    if j < k {
        lemma_cross_total_monotone(b, ps, dir, j, k - 1);
        if k > 0 && forms_cross_word(b, ps[k - 1], dir) {
            let w = cross_word_of(b, ps[k - 1], dir);
            lemma_tally_bounds(b, w, single_square(ps[k - 1]), cross_dir(dir), cross_start(b, ps[k - 1], dir), w.len() as int);
        }
    }
}

/// Walking forward from `pos` along `line` over occupied squares: the first
/// position past the run.
pub open spec fn run_end(b: BoardModel, dir: Direction, line: int, pos: int) -> int
    decreases b.size - pos,
{
    if 0 <= pos < b.size && tile_along(b, dir, line, pos) is Some {
        run_end(b, dir, line, pos + 1)
    } else {
        pos
    }
}

/// Whether (r, c) is on the word through (row, col) in direction `d` or next
/// to one of its ends: on that line, from the square before the word's first
/// square to the square after its last.
pub open spec fn near_word(b: BoardModel, d: Direction, row: int, col: int, r: int, c: int) -> bool {
    let lp = line_pos(d, row, col);
    let q = line_pos(d, r, c);
    let start = run_start(b, d, lp.0, lp.1);
    &&& q.0 == lp.0
    &&& start - 1 <= q.1
    &&& (q.1 <= lp.1 || q.1 <= run_end(b, d, lp.0, start))
}

/// Whether (r, c) is the square (row, col) or one of its four neighbours.
pub open spec fn next_to(row: int, col: int, r: int, c: int) -> bool {
    ||| r == row && (c == col - 1 || c == col || c == col + 1)
    ||| c == col && (r == row - 1 || r == row + 1)
}

/// Whether (r, c) is on or next to placement `p` or its cross word.
pub open spec fn near_placement(b: BoardModel, p: (usize, usize, String), dir: Direction, r: int, c: int) -> bool {
    near_word(b, cross_dir(dir), p.0 as int, p.1 as int, r, c) || next_to(p.0 as int, p.1 as int, r, c)
}

/// Whether (r, c) is on or next to a word that a move forms (its main word
/// or a cross word) or one of its tiles.
pub open spec fn near_move(b: BoardModel, ps: Seq<(usize, usize, String)>, dir: Direction, r: int, c: int) -> bool {
    ||| near_word(b, dir, ps[0].0 as int, ps[0].1 as int, r, c)
    ||| exists|i: int| 0 <= i < ps.len() && #[trigger] near_placement(b, ps[i], dir, r, c)
}

proof fn lemma_run_start_le(b: BoardModel, d: Direction, line: int, pos: int)
    ensures
        run_start(b, d, line, pos) <= pos,
    decreases pos,
{
    if pos >= 1 && tile_along(b, d, line, pos - 1) is Some {
        lemma_run_start_le(b, d, line, pos - 1);
    }
}

proof fn lemma_run_start_agrees(b1: BoardModel, b2: BoardModel, d: Direction, line: int, pos: int)
    requires
        b1.size == b2.size,
        forall|q: int| run_start(b1, d, line, pos) - 1 <= q < pos ==> #[trigger] tile_along(b1, d, line, q) == tile_along(b2, d, line, q),
    ensures
        run_start(b1, d, line, pos) == run_start(b2, d, line, pos),
    decreases pos,
{
    if pos >= 1 {
        assert(tile_along(b1, d, line, pos - 1) == tile_along(b2, d, line, pos - 1)) by {
            lemma_run_start_le(b1, d, line, pos - 1);
        }
        if tile_along(b1, d, line, pos - 1) is Some {
            lemma_run_start_agrees(b1, b2, d, line, pos - 1);
        }
    }
}

proof fn lemma_run_end_ge(b: BoardModel, d: Direction, line: int, pos: int)
    ensures
        run_end(b, d, line, pos) >= pos,
    decreases b.size - pos,
{
    if 0 <= pos < b.size && tile_along(b, d, line, pos) is Some {
        lemma_run_end_ge(b, d, line, pos + 1);
    }
}

proof fn lemma_run_from_agrees(b1: BoardModel, b2: BoardModel, d: Direction, line: int, pos: int)
    requires
        b1.size == b2.size,
        forall|q: int| pos <= q <= run_end(b1, d, line, pos) ==> #[trigger] tile_along(b1, d, line, q) == tile_along(b2, d, line, q),
    ensures
        run_from(b1, d, line, pos) == run_from(b2, d, line, pos),
    decreases b1.size - pos,
{
    lemma_run_end_ge(b1, d, line, pos);
    assert(tile_along(b1, d, line, pos) == tile_along(b2, d, line, pos));
    if 0 <= pos < b1.size && tile_along(b1, d, line, pos) is Some {
        lemma_run_from_agrees(b1, b2, d, line, pos + 1);
    }
}

/// The word through (row, col) and where it starts are read alike on two
/// boards that agree on the squares of that word and next to its ends.
proof fn lemma_word_agrees(b1: BoardModel, b2: BoardModel, d: Direction, row: int, col: int)
    requires
        b1.size == b2.size,
        forall|r: int, c: int| b1.on_board(r, c) && near_word(b1, d, row, col, r, c) ==> #[trigger] b2.cell(r, c).tile == b1.cell(r, c).tile,
    ensures
        word_through(b1, row, col, d) == word_through(b2, row, col, d),
        start_square(b1, row, col, d) == start_square(b2, row, col, d),
{
    let lp = line_pos(d, row, col);
    let start = run_start(b1, d, lp.0, lp.1);
    assert forall|q: int| start - 1 <= q <= lp.1 || start - 1 <= q <= run_end(b1, d, lp.0, start)
        implies #[trigger] tile_along(b1, d, lp.0, q) == tile_along(b2, d, lp.0, q) by {
        let sq = at(d, lp.0, q);
        assert(line_pos(d, sq.0, sq.1) == (lp.0, q));
        if b1.on_board(sq.0, sq.1) {
            assert(near_word(b1, d, row, col, sq.0, sq.1));
            assert(b2.cell(sq.0, sq.1).tile == b1.cell(sq.0, sq.1).tile);
        }
    }
    lemma_run_start_agrees(b1, b2, d, lp.0, lp.1);
    lemma_run_from_agrees(b1, b2, d, lp.0, start);
}

proof fn lemma_tally_agrees(b1: BoardModel, b2: BoardModel, word: Seq<char>, placed: Seq<(usize, usize)>, dir: Direction, base: (int, int), k: int)
    requires
        b1.size == b2.size,
        forall|r: int, c: int| b1.on_board(r, c) ==> #[trigger] b2.cell(r, c).premium == b1.cell(r, c).premium,
    ensures
        word_tally(b1, word, placed, dir, base, k) == word_tally(b2, word, placed, dir, base, k),
    decreases k,
{
    if k > 0 {
        lemma_tally_agrees(b1, b2, word, placed, dir, base, k - 1);
        let sq = letter_square(base, dir, k - 1);
        if has_square(placed, sq.0, sq.1) && sq.0 < b1.size && sq.1 < b1.size {
            let j = choose|j: int| 0 <= j < placed.len() && (#[trigger] placed[j]).0 == sq.0 && placed[j].1 == sq.1;
            assert(b1.on_board(sq.0, sq.1));
            assert(b2.cell(sq.0, sq.1).premium == b1.cell(sq.0, sq.1).premium);
        }
    }
}

/// Whether two boards of one size have the same premiums, and the same tiles
/// on every square on or next to the words that move `ps` forms on the first.
pub open spec fn agree_near_move(b1: BoardModel, b2: BoardModel, ps: Seq<(usize, usize, String)>, dir: Direction) -> bool {
    &&& b1.size == b2.size
    &&& forall|r: int, c: int| b1.on_board(r, c) ==> #[trigger] b2.cell(r, c).premium == b1.cell(r, c).premium
    &&& forall|r: int, c: int| b1.on_board(r, c) && near_move(b1, ps, dir, r, c) ==> #[trigger] b2.cell(r, c).tile == b1.cell(r, c).tile
}

proof fn lemma_placement_agrees(b1: BoardModel, b2: BoardModel, ps: Seq<(usize, usize, String)>, dir: Direction, i: int)
    requires
        0 <= i < ps.len(),
        b1.on_board(ps[i].0 as int, ps[i].1 as int),
        agree_near_move(b1, b2, ps, dir),
    ensures
        forms_cross_word(b1, ps[i], dir) == forms_cross_word(b2, ps[i], dir),
        cross_word_of(b1, ps[i], dir) == cross_word_of(b2, ps[i], dir),
        cross_start(b1, ps[i], dir) == cross_start(b2, ps[i], dir),
{
    let p = ps[i];
    let row = p.0 as int;
    let col = p.1 as int;
    assert forall|r: int, c: int| b1.on_board(r, c) && near_placement(b1, p, dir, r, c)
        implies #[trigger] b2.cell(r, c).tile == b1.cell(r, c).tile by {
        assert(near_placement(b1, ps[i], dir, r, c));
        assert(near_move(b1, ps, dir, r, c));
    }
    assert forall|r: int, c: int| b1.on_board(r, c) && near_word(b1, cross_dir(dir), row, col, r, c)
        implies #[trigger] b2.cell(r, c).tile == b1.cell(r, c).tile by {
        assert(near_placement(b1, p, dir, r, c));
    }
    lemma_word_agrees(b1, b2, cross_dir(dir), row, col);
    assert(next_to(row, col, row, col - 1) && next_to(row, col, row, col + 1));
    assert(next_to(row, col, row - 1, col) && next_to(row, col, row + 1, col));
    if col > 0 {
        assert(b2.cell(row, col - 1).tile == b1.cell(row, col - 1).tile) by {
            assert(near_placement(b1, p, dir, row, col - 1));
        }
    }
    if col + 1 < b1.size {
        assert(b2.cell(row, col + 1).tile == b1.cell(row, col + 1).tile) by {
            assert(near_placement(b1, p, dir, row, col + 1));
        }
    }
    if row > 0 {
        assert(b2.cell(row - 1, col).tile == b1.cell(row - 1, col).tile) by {
            assert(near_placement(b1, p, dir, row - 1, col));
        }
    }
    if row + 1 < b1.size {
        assert(b2.cell(row + 1, col).tile == b1.cell(row + 1, col).tile) by {
            assert(near_placement(b1, p, dir, row + 1, col));
        }
    }
}

proof fn lemma_cross_agrees(b1: BoardModel, b2: BoardModel, ps: Seq<(usize, usize, String)>, dir: Direction, k: int)
    requires
        0 <= k <= ps.len(),
        forall|i: int| 0 <= i < ps.len() ==> b1.on_board((#[trigger] ps[i]).0 as int, ps[i].1 as int),
        agree_near_move(b1, b2, ps, dir),
    ensures
        cross_words(b1, ps, dir, k) == cross_words(b2, ps, dir, k),
        cross_total(b1, ps, dir, k) == cross_total(b2, ps, dir, k),
        cross_fits_upto(b1, ps, dir, k) == cross_fits_upto(b2, ps, dir, k),
    decreases k,
{
    if k > 0 {
        lemma_cross_agrees(b1, b2, ps, dir, k - 1);
        lemma_placement_agrees(b1, b2, ps, dir, k - 1);
        let p = ps[k - 1];
        lemma_tally_agrees(b1, b2, cross_word_of(b1, p, dir), single_square(p), cross_dir(dir), cross_start(b1, p, dir),
            cross_word_of(b1, p, dir).len() as int);
        assert forall|i: int| 0 <= i < k && forms_cross_word(b1, #[trigger] ps[i], dir) implies
            word_fits(b1, cross_word_of(b1, ps[i], dir), single_square(ps[i]), cross_dir(dir), cross_start(b1, ps[i], dir))
            == word_fits(b2, cross_word_of(b2, ps[i], dir), single_square(ps[i]), cross_dir(dir), cross_start(b2, ps[i], dir)) by {
            lemma_placement_agrees(b1, b2, ps, dir, i);
            lemma_tally_agrees(b1, b2, cross_word_of(b1, ps[i], dir), single_square(ps[i]), cross_dir(dir), cross_start(b1, ps[i], dir),
                cross_word_of(b1, ps[i], dir).len() as int);
        }
        assert forall|i: int| 0 <= i < k implies forms_cross_word(b1, #[trigger] ps[i], dir) == forms_cross_word(b2, ps[i], dir) by {
            lemma_placement_agrees(b1, b2, ps, dir, i);
        }
    }
}

/// A move's score depends only on the words it forms: on two boards with the
/// same premiums that hold the same tiles on every square on or next to the
/// words the move forms (and its tiles), the move forms the same words,
/// scores the same, and stays within machine integers alike.
pub proof fn lemma_score_is_local(b1: BoardModel, b2: BoardModel, ps: Seq<(usize, usize, String)>, dir: Direction)
    requires
        ps.len() > 0,
        forall|i: int| 0 <= i < ps.len() ==> b1.on_board((#[trigger] ps[i]).0 as int, ps[i].1 as int),
        agree_near_move(b1, b2, ps, dir),
    ensures
        move_score(b1, ps, dir) == move_score(b2, ps, dir),
        score_fits(b1, ps, dir) == score_fits(b2, ps, dir),
{
    let n = ps.len() as int;
    assert forall|r: int, c: int| b1.on_board(r, c) && near_word(b1, dir, ps[0].0 as int, ps[0].1 as int, r, c)
        implies #[trigger] b2.cell(r, c).tile == b1.cell(r, c).tile by {
        assert(near_move(b1, ps, dir, r, c));
    }
    lemma_word_agrees(b1, b2, dir, ps[0].0 as int, ps[0].1 as int);
    let w = main_word_of(b1, ps, dir);
    lemma_tally_agrees(b1, b2, w, squares_of(ps), dir, main_start(b1, ps, dir), w.len() as int);
    lemma_cross_agrees(b1, b2, ps, dir, n);
}

/// `m * f` for `f` in 1..=3, saturating at `u32::MAX`.
pub open spec fn sat_times(m: int, f: int) -> int {
    let p = if f == 2 { m + m } else if f == 3 { m + m + m } else { m };
    if p > u32::MAX { u32::MAX as int } else { p }
}

/// Whether (r, c) is among the squares.
pub open spec fn has_square(sqs: Seq<(usize, usize)>, r: int, c: int) -> bool {
    exists|j: int| 0 <= j < sqs.len() && (#[trigger] sqs[j]).0 == r && sqs[j].1 == c
}

/// The points of letter `ch` at (r, c), and the factor it puts on the word:
/// a premium counts only under a newly placed tile.
pub open spec fn letter_effect(b: BoardModel, placed: Seq<(usize, usize)>, r: int, c: int, ch: char) -> (int, int) {
    let ls = char_points(ch);
    if has_square(placed, r, c) && r < b.size && c < b.size {
        match b.cell(r, c).premium {
            Premium::DL => (ls * 2, 1),
            Premium::TL => (ls * 3, 1),
            Premium::DW => (ls, 2),
            Premium::TW => (ls, 3),
            Premium::Normal => (ls, 1),
        }
    } else {
        (ls, 1)
    }
}

/// The square of the `i`-th letter of a word starting at `base`.
pub open spec fn letter_square(base: (int, int), dir: Direction, i: int) -> (int, int) {
    match dir {
        Direction::Across => (base.0, base.1 + i),
        Direction::Down => (base.0 + i, base.1),
    }
}

/// The raw points and the word factor of the first `k` letters of `word`,
/// laid out from `base`.
pub open spec fn word_tally(b: BoardModel, word: Seq<char>, placed: Seq<(usize, usize)>, dir: Direction, base: (int, int), k: int) -> (int, int)
    decreases k,
{
    if k <= 0 {
        (0, 1)
    } else {
        let prev = word_tally(b, word, placed, dir, base, k - 1);
        let sq = letter_square(base, dir, k - 1);
        let e = letter_effect(b, placed, sq.0, sq.1, word[k - 1]);
        (prev.0 + e.0, sat_times(prev.1, e.1))
    }
}

/// The raw points and word factor of `word`, laid out from the square `base`.
pub open spec fn word_score(b: BoardModel, word: Seq<char>, placed: Seq<(usize, usize)>, dir: Direction, base: (int, int)) -> (int, int) {
    word_tally(b, word, placed, dir, base, word.len() as int)
}


/// The direction across the direction of play.
pub open spec fn cross_dir(dir: Direction) -> Direction {
    match dir {
        Direction::Across => Direction::Down,
        Direction::Down => Direction::Across,
    }
}

/// Whether the square (row, col) has a tile before or after it in direction `d`.
pub open spec fn has_neighbor_in(b: BoardModel, row: int, col: int, d: Direction) -> bool {
    match d {
        Direction::Across => (col > 0 && b.cell(row, col - 1).tile is Some)
            || (col + 1 < b.size && b.cell(row, col + 1).tile is Some),
        Direction::Down => (row > 0 && b.cell(row - 1, col).tile is Some)
            || (row + 1 < b.size && b.cell(row + 1, col).tile is Some),
    }
}

/// Whether placement `p` forms a cross word: it has a neighbour across the
/// direction of play, and the word through it that way is longer than one byte.
pub open spec fn forms_cross_word(b: BoardModel, p: (usize, usize, String), dir: Direction) -> bool {
    &&& has_neighbor_in(b, p.0 as int, p.1 as int, cross_dir(dir))
    &&& byte_len(word_through(b, p.0 as int, p.1 as int, cross_dir(dir))) > 1
}

/// The first square of the cross word of placement `p`.
pub open spec fn cross_start(b: BoardModel, p: (usize, usize, String), dir: Direction) -> (int, int) {
    start_square(b, p.0 as int, p.1 as int, cross_dir(dir))
}

/// The cross word of placement `p`.
pub open spec fn cross_word_of(b: BoardModel, p: (usize, usize, String), dir: Direction) -> Seq<char> {
    word_through(b, p.0 as int, p.1 as int, cross_dir(dir))
}

/// The cross words of the first `k` placements, in placement order.
pub open spec fn cross_words(b: BoardModel, ps: Seq<(usize, usize, String)>, dir: Direction, k: int) -> Seq<Seq<char>>
    decreases k,
{
    if k <= 0 {
        Seq::empty()
    } else {
        cross_words(b, ps, dir, k - 1) + (if forms_cross_word(b, ps[k - 1], dir) {
            seq![cross_word_of(b, ps[k - 1], dir)]
        } else {
            Seq::empty()
        })
    }
}

/// The square of a placement, alone.
pub open spec fn single_square(p: (usize, usize, String)) -> Seq<(usize, usize)> {
    seq![(p.0, p.1)]
}

/// The raw points of the cross words of the first `k` placements.
pub open spec fn cross_total(b: BoardModel, ps: Seq<(usize, usize, String)>, dir: Direction, k: int) -> int
    decreases k,
{
    if k <= 0 {
        0
    } else {
        cross_total(b, ps, dir, k - 1) + (if forms_cross_word(b, ps[k - 1], dir) {
            word_score(b, cross_word_of(b, ps[k - 1], dir), single_square(ps[k - 1]), cross_dir(dir), cross_start(b, ps[k - 1], dir)).0
        } else {
            0
        })
    }
}

/// The coordinate along the direction of play of a square.
pub open spec fn along_of(sq: (int, int), dir: Direction) -> int {
    match dir {
        Direction::Across => sq.1,
        Direction::Down => sq.0,
    }
}

/// Whether scoring `word` laid out from `base` stays within machine
/// integers: the squares of its letters are `usize` coordinates and its raw
/// points fit a `u32`.
pub open spec fn word_fits(b: BoardModel, word: Seq<char>, placed: Seq<(usize, usize)>, dir: Direction, base: (int, int)) -> bool {
    &&& (word.len() == 0 || along_of(base, dir) + word.len() - 1 <= usize::MAX)
    &&& word_score(b, word, placed, dir, base).0 <= u32::MAX
}

/// Whether the cross words of the first `k` placements can be scored within machine integers.
pub open spec fn cross_fits_upto(b: BoardModel, ps: Seq<(usize, usize, String)>, dir: Direction, k: int) -> bool {
    forall|i: int| 0 <= i < k && forms_cross_word(b, #[trigger] ps[i], dir) ==>
        word_fits(b, cross_word_of(b, ps[i], dir), single_square(ps[i]), cross_dir(dir), cross_start(b, ps[i], dir))
}

/// The squares of the placements.
pub open spec fn squares_of(ps: Seq<(usize, usize, String)>) -> Seq<(usize, usize)> {
    ps.map_values(|p: (usize, usize, String)| (p.0, p.1))
}

/// The main word of a move: the word through its first placement.
pub open spec fn main_word_of(b: BoardModel, ps: Seq<(usize, usize, String)>, dir: Direction) -> Seq<char> {
    word_through(b, ps[0].0 as int, ps[0].1 as int, dir)
}

/// The first square of the main word.
pub open spec fn main_start(b: BoardModel, ps: Seq<(usize, usize, String)>, dir: Direction) -> (int, int) {
    start_square(b, ps[0].0 as int, ps[0].1 as int, dir)
}

/// The raw points and word factor of the main word.
pub open spec fn main_score_of(b: BoardModel, ps: Seq<(usize, usize, String)>, dir: Direction) -> (int, int) {
    word_score(b, main_word_of(b, ps, dir), squares_of(ps), dir, main_start(b, ps, dir))
}

/// `a * m`, saturating at `u32::MAX`.
pub open spec fn sat_mul(a: int, m: int) -> int {
    if a * m > u32::MAX { u32::MAX as int } else { a * m }
}

/// The words formed by a move (the main word, then the cross words in
/// placement order) and its score: the main word's points plus the cross
/// words' points, times the main word's factor, in which each double or
/// triple word square under a placed tile of the main word counts once.
pub open spec fn move_score(b: BoardModel, ps: Seq<(usize, usize, String)>, dir: Direction) -> (Seq<Seq<char>>, int) {
    let ms = main_score_of(b, ps, dir);
    let n = ps.len() as int;
    (
        seq![main_word_of(b, ps, dir)] + cross_words(b, ps, dir, n),
        sat_mul(ms.0 + cross_total(b, ps, dir, n), ms.1),
    )
}

/// The inputs on which scoring a move stays within machine integers: every
/// word can be scored so, and the sum of the raw points fits a `u32`.
pub open spec fn score_fits(b: BoardModel, ps: Seq<(usize, usize, String)>, dir: Direction) -> bool {
    let n = ps.len() as int;
    &&& word_fits(b, main_word_of(b, ps, dir), squares_of(ps), dir, main_start(b, ps, dir))
    &&& cross_fits_upto(b, ps, dir, n)
    &&& main_score_of(b, ps, dir).0 + cross_total(b, ps, dir, n) <= u32::MAX
}

/// Score a word based on tiles and premium squares.
pub struct WordScore {
    pub score: u32,
    pub word_mult: u32,
}

proof fn lemma_tally_bounds(b: BoardModel, word: Seq<char>, placed: Seq<(usize, usize)>, dir: Direction, base: (int, int), k: int)
    requires
        0 <= k,
    ensures
        0 <= word_tally(b, word, placed, dir, base, k).0,
        1 <= word_tally(b, word, placed, dir, base, k).1 <= u32::MAX,
    decreases k,
{
    if k > 0 {
        lemma_tally_bounds(b, word, placed, dir, base, k - 1);
        lemma_tally_monotone(b, word, placed, dir, base, k - 1, k);
    }
}

proof fn lemma_tally_monotone(b: BoardModel, word: Seq<char>, placed: Seq<(usize, usize)>, dir: Direction, base: (int, int), j: int, k: int)
    requires
        0 <= j <= k,
    ensures
        word_tally(b, word, placed, dir, base, j).0 <= word_tally(b, word, placed, dir, base, k).0,
    decreases k - j,
{
    if j < k {
        lemma_tally_monotone(b, word, placed, dir, base, j, k - 1);
        let sq = letter_square(base, dir, k - 1);
        let e = letter_effect(b, placed, sq.0, sq.1, word[k - 1]);
        assert(e.0 >= 0);
    }
}

/// Whether a character is the given letter's single-character string.
fn char_text(c: char) -> (s: String)
    ensures
        s@ == seq![c],
{
    let mut s = String::new();
    push_char(&mut s, c);
    assert(s@ =~= seq![c]);
    s
}

/// Whether the squares contain (r, c).
fn contains_square(sqs: &Vec<(usize, usize)>, r: usize, c: usize) -> (res: bool)
    ensures
        res == has_square(sqs@, r as int, c as int),
{
    let mut j: usize = 0;
    while j < sqs.len()
        invariant
            0 <= j <= sqs@.len(),
            forall|k: int| 0 <= k < j ==> !((#[trigger] sqs@[k]).0 == r && sqs@[k].1 == c),
        decreases sqs@.len() - j,
    {
        if sqs[j].0 == r && sqs[j].1 == c {
            return true;
        }
        j = j + 1;
    }
    false
}

/// `m * f` for `f` in 1..=3, saturating at `u32::MAX` (`u32::saturating_mul`).
fn sat_mul_small(m: u32, f: u32) -> (res: u32)
    requires
        1 <= f <= 3,
    ensures
        res as int == sat_times(m as int, f as int),
{
    proof {
        assert(m as int * 1 == m) by (nonlinear_arith);
        assert(m as int * 2 == m + m) by (nonlinear_arith);
        assert(m as int * 3 == m + m + m) by (nonlinear_arith);
    }
    match m.checked_mul(f) {
        Some(v) => v,
        None => u32::MAX,
    }
}

impl Board {
    /// Score a word based on tiles and premium squares: its letters lie on
    /// the squares from (base_row, base_col) on, and a premium counts only
    /// under a newly placed tile. `None` when the letters' squares or the raw
    /// points leave the machine integers.
    pub(crate) fn score_word(&self, word: &str, base_row: usize, base_col: usize, new_placed: &Vec<(usize, usize)>, direction: Direction, points: &LetterPoints) -> (res: Option<WordScore>)
        requires
            self.wf(),
        ensures
            res is Some <==> word_fits(self.model(), word@, new_placed@, direction, (base_row as int, base_col as int)),
            res matches Some(ws) ==> ws.score as int == word_score(self.model(), word@, new_placed@, direction, (base_row as int, base_col as int)).0
                && ws.word_mult as int == word_score(self.model(), word@, new_placed@, direction, (base_row as int, base_col as int)).1,
    {
        let ghost b = self.model();
        let n = word.unicode_len();
        let ghost base = (base_row as int, base_col as int);
        proof {
            lemma_tally_bounds(b, word@, new_placed@, direction, base, n as int);
        }
        let mut raw_score: u32 = 0;
        let mut word_mult: u32 = 1;
        let mut i: usize = 0;
        while i < n
            invariant
                b == self.model(),
                self.wf(),
                n == word@.len(),
                base == (base_row as int, base_col as int),
                0 <= i <= n,
                i > 0 ==> along_of(base, direction) + i - 1 <= usize::MAX,
                raw_score as int == word_tally(b, word@, new_placed@, direction, base, i as int).0,
                word_mult as int == word_tally(b, word@, new_placed@, direction, base, i as int).1,
            decreases n - i,
        {
            let ch = word.get_char(i);
            let letter = char_text(ch);
            let letter_score: u32 = match points.get(letter.as_str()) {
                Some(v) => *v as u32,
                None => 1,
            };
            let shifted = match direction {
                Direction::Across => base_col.checked_add(i),
                Direction::Down => base_row.checked_add(i),
            };
            let (r, c) = match shifted {
                Some(x) => match direction {
                    Direction::Across => (base_row, x),
                    Direction::Down => (x, base_col),
                },
                None => {
                    return None;
                },
            };
            let mut effective_score = letter_score;
            if contains_square(new_placed, r, c) && r < self.size && c < self.size {
                match self.squares[r][c].premium {
                    Premium::DL => effective_score = letter_score * 2,
                    Premium::TL => effective_score = letter_score * 3,
                    Premium::DW => word_mult = sat_mul_small(word_mult, 2),
                    Premium::TW => word_mult = sat_mul_small(word_mult, 3),
                    Premium::Normal => {},
                }
            }
            proof {
                lemma_tally_monotone(b, word@, new_placed@, direction, base, i as int + 1, n as int);
            }
            match raw_score.checked_add(effective_score) {
                Some(v) => raw_score = v,
                None => {
                    return None;
                },
            }
            i = i + 1;
        }
        Some(WordScore { score: raw_score, word_mult })
    }

    /// Calculate score for a move: the words formed (the main word first,
    /// then the cross words) and the total score. `None` when scoring leaves
    /// the machine integers.
    pub(crate) fn calculate_score(&self, placements: &[(usize, usize, String)], direction: Direction) -> (res: Option<(Vec<String>, u32)>)
        requires
            self.wf(),
            placements@.len() > 0,
            forall|i: int| 0 <= i < placements@.len() ==> self.on_board((#[trigger] placements@[i]).0 as int, placements@[i].1 as int),
        ensures
            res is Some <==> score_fits(self.model(), placements@, direction),
            res matches Some(r) ==> r.0@.map_values(|w: String| w@) == move_score(self.model(), placements@, direction).0
                && r.1 as int == move_score(self.model(), placements@, direction).1,
    {
        let ghost b = self.model();
        let ghost ps = placements@;
        let n = placements.len();
        let points = letter_points();
        let mut placed_set: Vec<(usize, usize)> = Vec::new();
        let mut i: usize = 0;
        while i < n
            invariant
                n == ps.len(),
                ps == placements@,
                0 <= i <= n,
                placed_set@ == squares_of(ps).take(i as int),
            decreases n - i,
        {
            placed_set.push((placements[i].0, placements[i].1));
            assert(squares_of(ps).take(i + 1) =~= squares_of(ps).take(i as int).push((ps[i as int].0, ps[i as int].1)));
            i = i + 1;
        }
        assert(squares_of(ps).take(n as int) =~= squares_of(ps));
        let main_word = self.read_word_in_direction(placements[0].0, placements[0].1, direction);
        let (main_row, main_col) = self.start_of_run(placements[0].0, placements[0].1, direction);
        proof {
            lemma_cross_total_bounds(b, ps, direction, n as int);
            lemma_tally_bounds(b, main_word@, squares_of(ps), direction, main_start(b, ps, direction), main_word@.len() as int);
        }
        let main_score = match self.score_word(main_word.as_str(), main_row, main_col, &placed_set, direction, &points) {
            Some(ws) => ws,
            None => {
                return None;
            },
        };
        let mut total_score: u32 = main_score.score;
        let word_mult0: u32 = if 1 >= main_score.word_mult { 1 } else { main_score.word_mult };
        let mut all_words: Vec<String> = Vec::new();
        all_words.push(main_word);
        let cross = match direction {
            Direction::Across => Direction::Down,
            Direction::Down => Direction::Across,
        };
        let mut k: usize = 0;
        while k < n
            invariant
                b == self.model(),
                self.wf(),
                n == ps.len(),
                ps == placements@,
                cross == cross_dir(direction),
                forall|i: int| 0 <= i < n ==> self.on_board((#[trigger] ps[i]).0 as int, ps[i].1 as int),
                word_fits(b, main_word_of(b, ps, direction), squares_of(ps), direction, main_start(b, ps, direction)),
                0 <= k <= n,
                cross_fits_upto(b, ps, direction, k as int),
                0 <= cross_total(b, ps, direction, k as int),
                total_score as int == main_score_of(b, ps, direction).0 + cross_total(b, ps, direction, k as int),
                main_score_of(b, ps, direction).1 == word_mult0 as int,
                all_words@.map_values(|w: String| w@) == seq![main_word_of(b, ps, direction)] + cross_words(b, ps, direction, k as int),
            decreases n - k,
        {
            let row = placements[k].0;
            let col = placements[k].1;
            let has_prev = match cross {
                Direction::Across => col > 0 && self.tile_at(row, col - 1).is_some(),
                Direction::Down => row > 0 && self.tile_at(row - 1, col).is_some(),
            };
            let has_next = match cross {
                Direction::Across => col + 1 < self.size && self.tile_at(row, col + 1).is_some(),
                Direction::Down => row + 1 < self.size && self.tile_at(row + 1, col).is_some(),
            };
            let ghost before_words = all_words@.map_values(|w: String| w@);
            proof {
                lemma_cross_total_bounds(b, ps, direction, k as int + 1);
                lemma_cross_total_monotone(b, ps, direction, k as int + 1, n as int);
            }
            if has_prev || has_next {
                let cross_word = self.read_word_in_direction(row, col, cross);
                if cross_word.as_str().len() > 1 {
                    let mut single_placed: Vec<(usize, usize)> = Vec::new();
                    single_placed.push((row, col));
                    assert(single_placed@ =~= single_square(ps[k as int]));
                    assert(forms_cross_word(b, ps[k as int], direction));
                    let (cross_row, cross_col) = self.start_of_run(row, col, cross);
                    let cross_score = match self.score_word(cross_word.as_str(), cross_row, cross_col, &single_placed, cross, &points) {
                        Some(ws) => ws,
                        None => {
                            assert(!cross_fits_upto(b, ps, direction, n as int));
                            return None;
                        },
                    };
                    total_score = match total_score.checked_add(cross_score.score) {
                        Some(v) => v,
                        None => {
                            assert(main_score_of(b, ps, direction).0 + cross_total(b, ps, direction, n as int) > u32::MAX);
                            return None;
                        },
                    };
                    all_words.push(cross_word);
                    assert(all_words@.map_values(|w: String| w@) =~= before_words.push(cross_word_of(b, ps[k as int], direction)));
                } else {
                    assert(!forms_cross_word(b, ps[k as int], direction));
                }
            } else {
                assert(!forms_cross_word(b, ps[k as int], direction));
            }
            assert(seq![main_word_of(b, ps, direction)] + cross_words(b, ps, direction, k as int + 1)
                =~= all_words@.map_values(|w: String| w@));
            k = k + 1;
        }
        let total = match total_score.checked_mul(word_mult0) {
            Some(v) => v,
            None => u32::MAX,
        };
        Some((all_words, total))
    }

    /// The square where the run of tiles through (row, col) in `direction`
    /// begins: walking back from it while the square before holds a tile.
    pub(crate) fn start_of_run(&self, row: usize, col: usize, direction: Direction) -> (pos: (usize, usize))
        requires
            self.wf(),
            row < self.size,
            col < self.size,
        ensures
            pos.0 as int == start_square(self.model(), row as int, col as int, direction).0,
            pos.1 as int == start_square(self.model(), row as int, col as int, direction).1,
            pos.0 < self.size,
            pos.1 < self.size,
    {
        let ghost b = self.model();
        let ghost lp = line_pos(direction, row as int, col as int);
        let mut r: usize = row;
        let mut c: usize = col;
        match direction {
            Direction::Across => {
                while c > 0 && self.tile_at(r, c - 1).is_some()
                    invariant
                        b == self.model(),
                        self.wf(),
                        direction == Direction::Across,
                        c <= col < self.size,
                        r == row < self.size,
                        lp == (row as int, col as int),
                        run_start(b, direction, lp.0, lp.1) == run_start(b, direction, lp.0, c as int),
                    decreases c,
                {
                    assert(tile_along(b, direction, lp.0, c - 1) is Some);
                    c = c - 1;
                }
                assert(run_start(b, direction, lp.0, c as int) == c);
            },
            Direction::Down => {
                while r > 0 && self.tile_at(r - 1, c).is_some()
                    invariant
                        b == self.model(),
                        self.wf(),
                        direction == Direction::Down,
                        r <= row < self.size,
                        c == col < self.size,
                        lp == (col as int, row as int),
                        run_start(b, direction, lp.0, lp.1) == run_start(b, direction, lp.0, r as int),
                    decreases r,
                {
                    assert(tile_along(b, direction, lp.0, r - 1) is Some);
                    r = r - 1;
                }
                assert(run_start(b, direction, lp.0, r as int) == r);
            },
        }
        (r, c)
    }

    /// Read a word through (row, col) in the given direction: back to the
    /// start of the run of tiles, then forward to its end.
    pub(crate) fn read_word_in_direction(&self, row: usize, col: usize, direction: Direction) -> (word: String)
        requires
            self.wf(),
            row < self.size,
            col < self.size,
        ensures
            word@ == word_through(self.model(), row as int, col as int, direction),
    {
        let ghost b = self.model();
        let ghost lp = line_pos(direction, row as int, col as int);
        // Go to the start of the word
        let (start_row, start_col) = self.start_of_run(row, col, direction);
        let mut r: i32 = start_row as i32;
        let mut c: i32 = start_col as i32;
        let ghost start = match direction {
            Direction::Across => c as int,
            Direction::Down => r as int,
        };
        assert(start == run_start(b, direction, lp.0, lp.1));
        // Read the word
        let mut word = String::new();
        loop
            invariant
                b == self.model(),
                self.wf(),
                0 <= r <= self.size,
                0 <= c <= self.size,
                direction == Direction::Across ==> r == row && lp.0 == row,
                direction == Direction::Down ==> c == col && lp.0 == col,
                word@ + run_from(b, direction, lp.0, match direction { Direction::Across => c as int, Direction::Down => r as int })
                    == run_from(b, direction, lp.0, start),
            ensures
                word@ == run_from(b, direction, lp.0, start),
            decreases self.size - r + self.size - c,
        {
            if !self.in_bounds(r, c) {
                assert(word@ =~= word@ + Seq::<char>::empty());
                break;
            }
            match self.tile_at(r as usize, c as usize) {
                Some(tile) => {
                    let ghost before = word@;
                    word.append(tile);
                    assert(word@ == before + tile@);
                },
                None => {
                    assert(word@ =~= word@ + Seq::<char>::empty());
                    break;
                },
            }
            match direction {
                Direction::Across => c = c + 1,
                Direction::Down => r = r + 1,
            }
        }
        word
    }
}

/// The face value of a word: its letters' points added up, with no premium.
pub open spec fn face_value(w: Seq<char>) -> int
    decreases w.len(),
{
    if w.len() == 0 { 0 } else { face_value(w.drop_last()) + char_points(w.last()) }
}

/// The face values of a list of words, added up.
pub open spec fn face_total(ws: Seq<Seq<char>>) -> int
    decreases ws.len(),
{
    if ws.len() == 0 { 0 } else { face_total(ws.drop_last()) + face_value(ws.last()) }
}

proof fn lemma_face_nonnegative(w: Seq<char>)
    ensures
        face_value(w) >= 0,
    decreases w.len(),
{
    if w.len() > 0 {
        lemma_face_nonnegative(w.drop_last());
    }
}

proof fn lemma_face_total_concat(a: Seq<Seq<char>>, c: Seq<Seq<char>>)
    ensures
        face_total(a + c) == face_total(a) + face_total(c),
    decreases c.len(),
{
    if c.len() == 0 {
        assert(a + c =~= a);
    } else {
        lemma_face_total_concat(a, c.drop_last());
        assert((a + c).drop_last() =~= a + c.drop_last());
        assert((a + c).last() == c.last());
    }
}

proof fn lemma_tally_covers_face(b: BoardModel, w: Seq<char>, placed: Seq<(usize, usize)>, dir: Direction, base: (int, int), k: int)
    requires
        0 <= k <= w.len(),
    ensures
        word_tally(b, w, placed, dir, base, k).0 >= face_value(w.take(k)),
    decreases k,
{
    if k == 0 {
        assert(w.take(0) =~= Seq::<char>::empty());
    } else {
        lemma_tally_covers_face(b, w, placed, dir, base, k - 1);
        assert(w.take(k).drop_last() =~= w.take(k - 1));
        assert(w.take(k).last() == w[k - 1]);
        let sq = letter_square(base, dir, k - 1);
        let e = letter_effect(b, placed, sq.0, sq.1, w[k - 1]);
        assert(char_points(w[k - 1]) >= 0);
        assert(e.0 >= char_points(w[k - 1]));
    }
}

proof fn lemma_cross_covers_face(b: BoardModel, ps: Seq<(usize, usize, String)>, dir: Direction, k: int)
    requires
        0 <= k <= ps.len(),
    ensures
        cross_total(b, ps, dir, k) >= face_total(cross_words(b, ps, dir, k)),
    decreases k,
{
    if k == 0 {
    } else {
        lemma_cross_covers_face(b, ps, dir, k - 1);
        let p = ps[k - 1];
        let prev = cross_words(b, ps, dir, k - 1);
        if forms_cross_word(b, p, dir) {
            let w = cross_word_of(b, p, dir);
            lemma_tally_covers_face(b, w, single_square(p), cross_dir(dir), cross_start(b, p, dir), w.len() as int);
            assert(w.take(w.len() as int) =~= w);
            lemma_face_total_concat(prev, seq![w]);
            assert(seq![w].drop_last() =~= Seq::<Seq<char>>::empty());
            assert(face_total(Seq::<Seq<char>>::empty()) == 0);
            assert(face_total(seq![w]) == face_value(w));
            assert(cross_words(b, ps, dir, k) == prev + seq![w]);
        } else {
            assert(prev + Seq::<Seq<char>>::empty() =~= prev);
            assert(cross_words(b, ps, dir, k) == prev + Seq::<Seq<char>>::empty());
        }
    }
}

/// A move scores at least the face value of every word it forms, the main
/// word and each cross word together (up to `u32::MAX`): premiums and word
/// factors only add to it. So each cross word a move forms adds its letters'
/// points to the score.
pub proof fn lemma_score_covers_words(b: BoardModel, ps: Seq<(usize, usize, String)>, dir: Direction)
    ensures
        move_score(b, ps, dir).1 >= (if face_total(move_score(b, ps, dir).0) > u32::MAX {
            u32::MAX as int
        } else {
            face_total(move_score(b, ps, dir).0)
        }),
{
    let n = ps.len() as int;
    let w = main_word_of(b, ps, dir);
    let ms = main_score_of(b, ps, dir);
    let cw = cross_words(b, ps, dir, n);
    lemma_tally_covers_face(b, w, squares_of(ps), dir, main_start(b, ps, dir), w.len() as int);
    lemma_tally_bounds(b, w, squares_of(ps), dir, main_start(b, ps, dir), w.len() as int);
    assert(w.take(w.len() as int) =~= w);
    lemma_cross_covers_face(b, ps, dir, n);
    lemma_face_total_concat(seq![w], cw);
    assert(seq![w].drop_last() =~= Seq::<Seq<char>>::empty());
    assert(face_total(Seq::<Seq<char>>::empty()) == 0);
    assert(face_total(seq![w]) == face_value(w));
    assert(move_score(b, ps, dir).0 == seq![w] + cw);
    assert(face_total(move_score(b, ps, dir).0) == face_value(w) + face_total(cw));
    lemma_face_nonnegative(w);
    lemma_cross_total_bounds(b, ps, dir, n);
    let a = ms.0 + cross_total(b, ps, dir, n);
    let f = ms.1;
    assert(a * f >= a) by (nonlinear_arith)
        requires
            a >= 0,
            f >= 1,
    ;
    assert(a >= face_total(move_score(b, ps, dir).0));
    assert(move_score(b, ps, dir).1 == sat_mul(a, f));
}

/// Whether the square (row, col) has a tile next to it across the direction
/// of play: above or below it for a move across, left or right of it for a
/// move down.
pub open spec fn tile_across_from(b: BoardModel, row: int, col: int, dir: Direction) -> bool {
    match dir {
        Direction::Across => b.tile_spec(row - 1, col) is Some || b.tile_spec(row + 1, col) is Some,
        Direction::Down => b.tile_spec(row, col - 1) is Some || b.tile_spec(row, col + 1) is Some,
    }
}

/// Every cross word is reported: when a placed tile has a tile next to it
/// across the direction of play, the word read through it that way (if
/// longer than one byte) is among the words the move forms.
pub proof fn lemma_cross_words_reported(b: BoardModel, ps: Seq<(usize, usize, String)>, dir: Direction, i: int)
    requires
        0 <= i < ps.len(),
        b.on_board(ps[i].0 as int, ps[i].1 as int),
        tile_across_from(b, ps[i].0 as int, ps[i].1 as int, dir),
        byte_len(word_through(b, ps[i].0 as int, ps[i].1 as int, cross_dir(dir))) > 1,
    ensures
        move_score(b, ps, dir).0.contains(word_through(b, ps[i].0 as int, ps[i].1 as int, cross_dir(dir))),
{
    let n = ps.len() as int;
    assert(forms_cross_word(b, ps[i], dir));
    lemma_cross_words_hold(b, ps, dir, i, n);
    let cw = cross_words(b, ps, dir, n);
    let j = choose|j: int| 0 <= j < cw.len() && cw[j] == cross_word_of(b, ps[i], dir);
    let all = seq![main_word_of(b, ps, dir)] + cw;
    assert(all[j + 1] == cw[j]);
}

proof fn lemma_cross_words_hold(b: BoardModel, ps: Seq<(usize, usize, String)>, dir: Direction, i: int, k: int)
    requires
        0 <= i < k <= ps.len(),
        forms_cross_word(b, ps[i], dir),
    ensures
        cross_words(b, ps, dir, k).contains(cross_word_of(b, ps[i], dir)),
    decreases k,
{
    let prev = cross_words(b, ps, dir, k - 1);
    let cur = cross_words(b, ps, dir, k);
    if i < k - 1 {
        lemma_cross_words_hold(b, ps, dir, i, k - 1);
        let j = choose|j: int| 0 <= j < prev.len() && prev[j] == cross_word_of(b, ps[i], dir);
        assert(cur[j] == prev[j]);
    } else {
        assert(cur[prev.len() as int] == cross_word_of(b, ps[i], dir));
    }
}

/// The score of a move is never negative.
pub(crate) proof fn lemma_move_score_nonnegative(b: BoardModel, ps: Seq<(usize, usize, String)>, dir: Direction)
    ensures
        move_score(b, ps, dir).1 >= 0,
{
    let ms = main_score_of(b, ps, dir);
    let w = main_word_of(b, ps, dir);
    lemma_tally_bounds(b, w, squares_of(ps), dir, main_start(b, ps, dir), w.len() as int);
    lemma_cross_total_bounds(b, ps, dir, ps.len() as int);
    let a = ms.0 + cross_total(b, ps, dir, ps.len() as int);
    let f = ms.1;
    assert(a * f >= 0) by (nonlinear_arith)
        requires
            a >= 0,
            f >= 1,
    ;
}

} // verus!
