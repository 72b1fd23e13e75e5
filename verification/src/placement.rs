//! Whether a set of tile placements forms a legal play on the board: in one
//! line, without gaps, through the centre on the first move and touching
//! existing tiles afterwards.

use vstd::prelude::*;
use crate::board::{BoardModel, Direction};
use crate::game::Game;
use crate::text::push_decimal;
use crate::text::decimal;

verus! {

/// The placements (row, column, letter) of a move.
pub type Placements = [(usize, usize, String)];

/// Whether all placements share the row of the first one.
pub open spec fn same_row(ps: Seq<(usize, usize, String)>) -> bool {
    forall|i: int| 0 <= i < ps.len() ==> (#[trigger] ps[i]).0 == ps[0].0
}

/// Whether all placements share the column of the first one.
pub open spec fn same_col(ps: Seq<(usize, usize, String)>) -> bool {
    forall|i: int| 0 <= i < ps.len() ==> (#[trigger] ps[i]).1 == ps[0].1
}

/// The direction of a non-empty move: across when its tiles share a row,
/// down when they share a column, none otherwise.
pub open spec fn move_direction(ps: Seq<(usize, usize, String)>) -> Option<Direction> {
    if same_row(ps) {
        Some(Direction::Across)
    } else if same_col(ps) {
        Some(Direction::Down)
    } else {
        None
    }
}

/// The coordinate of a placement along the direction of play.
pub open spec fn along(p: (usize, usize, String), dir: Direction) -> int {
    match dir {
        Direction::Across => p.1 as int,
        Direction::Down => p.0 as int,
    }
}

/// The line (row or column) that the move lies in.
pub open spec fn line_of(ps: Seq<(usize, usize, String)>, dir: Direction) -> int {
    match dir {
        Direction::Across => ps[0].0 as int,
        Direction::Down => ps[0].1 as int,
    }
}

/// The square at `pos` along the line `line`, as (row, column).
pub open spec fn square_at(dir: Direction, line: int, pos: int) -> (int, int) {
    match dir {
        Direction::Across => (line, pos),
        Direction::Down => (pos, line),
    }
}

/// The smallest coordinate along the direction of play.
pub open spec fn min_along(ps: Seq<(usize, usize, String)>, dir: Direction) -> int
    decreases ps.len(),
{
    if ps.len() <= 1 {
        along(ps[0], dir)
    } else {
        let m = min_along(ps.drop_last(), dir);
        if along(ps.last(), dir) < m { along(ps.last(), dir) } else { m }
    }
}

/// The largest coordinate along the direction of play.
pub open spec fn max_along(ps: Seq<(usize, usize, String)>, dir: Direction) -> int
    decreases ps.len(),
{
    if ps.len() <= 1 {
        along(ps[0], dir)
    } else {
        let m = max_along(ps.drop_last(), dir);
        if along(ps.last(), dir) > m { along(ps.last(), dir) } else { m }
    }
}

/// Whether some placement lies at `pos` along the direction of play.
pub open spec fn placed_at(ps: Seq<(usize, usize, String)>, dir: Direction, pos: int) -> bool {
    exists|i: int| 0 <= i < ps.len() && along(#[trigger] ps[i], dir) == pos
}

/// Whether the move leaves a hole at offset `k` from its first square: no
/// tile is placed there, and the square is on the board and empty.
pub open spec fn gap_at(b: BoardModel, ps: Seq<(usize, usize, String)>, dir: Direction, k: int) -> bool {
    let sq = square_at(dir, line_of(ps, dir), min_along(ps, dir) + k);
    &&& !placed_at(ps, dir, min_along(ps, dir) + k)
    &&& b.on_board(sq.0, sq.1)
    &&& b.cell(sq.0, sq.1).tile is None
}

/// The first offset at or after `k`, up to the last placed square, where
/// the move leaves a hole, or -1.
pub open spec fn first_gap_from(b: BoardModel, ps: Seq<(usize, usize, String)>, dir: Direction, k: int) -> int
    decreases max_along(ps, dir) - min_along(ps, dir) - k + 1,
{
    if k < 0 || k > max_along(ps, dir) - min_along(ps, dir) {
        -1
    } else if gap_at(b, ps, dir, k) {
        k
    } else {
        first_gap_from(b, ps, dir, k + 1)
    }
}

/// Whether the square at `pos` along the move's line holds a placement or a
/// tile, or lies off the board.
pub open spec fn covered(b: BoardModel, ps: Seq<(usize, usize, String)>, dir: Direction, pos: int) -> bool {
    let sq = square_at(dir, line_of(ps, dir), pos);
    placed_at(ps, dir, pos) || !b.on_board(sq.0, sq.1) || b.cell(sq.0, sq.1).tile is Some
}

/// Whether every square between the first and the last placed square holds
/// a tile or a placement.
pub open spec fn contiguous(b: BoardModel, ps: Seq<(usize, usize, String)>, dir: Direction) -> bool {
    forall|pos: int| min_along(ps, dir) <= pos <= max_along(ps, dir) ==> #[trigger] covered(b, ps, dir, pos)
}

/// Whether some placement is on the centre square.
pub open spec fn covers_center(ps: Seq<(usize, usize, String)>) -> bool {
    exists|i: int| 0 <= i < ps.len() && (#[trigger] ps[i]).0 == 7 && ps[i].1 == 7
}

/// Whether the square (r, c), given as signed coordinates, is on the board and holds a tile.
pub open spec fn tile_near(b: BoardModel, r: int, c: int) -> bool {
    0 <= r < b.size as i32 && 0 <= c < b.size as i32 && b.cell(r, c).tile is Some
}

/// Whether a placement has a tile next to it, its coordinates taken as `i32`.
pub open spec fn touches_tile(b: BoardModel, row: usize, col: usize) -> bool {
    let r = row as i32 as int;
    let c = col as i32 as int;
    tile_near(b, r - 1, c) || tile_near(b, r + 1, c) || tile_near(b, r, c - 1) || tile_near(b, r, c + 1)
}

/// Whether some placement has a tile next to it.
pub open spec fn connected(b: BoardModel, ps: Seq<(usize, usize, String)>) -> bool {
    exists|i: int| 0 <= i < ps.len() && touches_tile(b, (#[trigger] ps[i]).0, ps[i].1)
}

/// Whether squares (r1, c1) and (r2, c2) are orthogonal neighbours: one
/// step apart, along a row or along a column.
pub open spec fn neighbours(r1: int, c1: int, r2: int, c2: int) -> bool {
    (r1 - r2) * (r1 - r2) + (c1 - c2) * (c1 - c2) == 1
}

proof fn lemma_neighbours_cases(r1: int, c1: int, r2: int, c2: int)
    ensures
        neighbours(r1, c1, r2, c2) <==> {
            ||| r2 == r1 - 1 && c2 == c1
            ||| r2 == r1 + 1 && c2 == c1
            ||| r2 == r1 && c2 == c1 - 1
            ||| r2 == r1 && c2 == c1 + 1
        },
{
    let dr = r1 - r2;
    let dc = c1 - c2;
    if dr >= 2 || dr <= -2 {
        assert(dr * dr >= 4) by (nonlinear_arith)
            requires
                dr >= 2 || dr <= -2,
        ;
        assert(dc * dc >= 0) by (nonlinear_arith);
    } else if dc >= 2 || dc <= -2 {
        assert(dc * dc >= 4) by (nonlinear_arith)
            requires
                dc >= 2 || dc <= -2,
        ;
        assert(dr * dr >= 0) by (nonlinear_arith);
    } else {
        assert(dr * dr == (if dr == 0 { 0int } else { 1int })) by (nonlinear_arith)
            requires
                -1 <= dr <= 1,
        ;
        assert(dc * dc == (if dc == 0 { 0int } else { 1int })) by (nonlinear_arith)
            requires
                -1 <= dc <= 1,
        ;
    }
}

/// Once the board has tiles, a move connects exactly when one of its squares
/// has an orthogonal neighbour on the board that holds a tile: above, below,
/// to the left or to the right.
pub proof fn lemma_connected_iff_neighbour(b: BoardModel, ps: Seq<(usize, usize, String)>)
    requires
        0 <= b.size < i32::MAX,
        forall|i: int| 0 <= i < ps.len() ==> (#[trigger] ps[i]).0 < i32::MAX && ps[i].1 < i32::MAX,
    ensures
        connected(b, ps) <==> exists|i: int, r: int, c: int| {
            &&& 0 <= i < ps.len()
            &&& b.on_board(r, c)
            &&& b.cell(r, c).tile is Some
            &&& #[trigger] neighbours(ps[i].0 as int, ps[i].1 as int, r, c)
        },
{
    if connected(b, ps) {
        let i = choose|i: int| 0 <= i < ps.len() && touches_tile(b, (#[trigger] ps[i]).0, ps[i].1);
        let row = ps[i].0 as int;
        let col = ps[i].1 as int;
        assert(ps[i].0 as i32 as int == row);
        assert(ps[i].1 as i32 as int == col);
        assert(b.size as i32 as int == b.size);
        if tile_near(b, row - 1, col) {
            lemma_neighbours_cases(row, col, row - 1, col);
            assert(b.on_board(row - 1, col));
            assert(neighbours(row, col, row - 1, col));
        } else if tile_near(b, row + 1, col) {
            lemma_neighbours_cases(row, col, row + 1, col);
            assert(b.on_board(row + 1, col));
            assert(neighbours(row, col, row + 1, col));
        } else if tile_near(b, row, col - 1) {
            lemma_neighbours_cases(row, col, row, col - 1);
            assert(b.on_board(row, col - 1) && neighbours(ps[i].0 as int, ps[i].1 as int, row, col - 1));
        } else {
            lemma_neighbours_cases(row, col, row, col + 1);
            assert(b.on_board(row, col + 1) && neighbours(ps[i].0 as int, ps[i].1 as int, row, col + 1));
        }
    }
    if exists|i: int, r: int, c: int| {
        &&& 0 <= i < ps.len()
        &&& b.on_board(r, c)
        &&& b.cell(r, c).tile is Some
        &&& #[trigger] neighbours(ps[i].0 as int, ps[i].1 as int, r, c)
    } {
        let (i, r, c) = choose|i: int, r: int, c: int| {
            &&& 0 <= i < ps.len()
            &&& b.on_board(r, c)
            &&& b.cell(r, c).tile is Some
            &&& #[trigger] neighbours(ps[i].0 as int, ps[i].1 as int, r, c)
        };
        let row = ps[i].0 as int;
        let col = ps[i].1 as int;
        assert(ps[i].0 as i32 as int == row);
        assert(ps[i].1 as i32 as int == col);
        lemma_neighbours_cases(row, col, r, c);
        assert(tile_near(b, r, c));
        assert(touches_tile(b, ps[i].0, ps[i].1));
    }
}

/// The message of a move that leaves a hole at (row, col).
pub open spec fn gap_message(row: int, col: int) -> Seq<char> {
    "Tiles must be contiguous (gap at "@ + decimal(row as nat) + ","@ + decimal(col as nat) + ")"@
}

/// Whether there are placements and they lie in one line of direction
/// `dir`: one row across, one column down.
pub open spec fn in_line(ps: Seq<(usize, usize, String)>, dir: Direction) -> bool {
    &&& ps.len() > 0
    &&& match dir {
        Direction::Across => same_row(ps),
        Direction::Down => same_col(ps),
    }
}

/// The reason a move in direction `dir` is not a legal play, if it is not.
pub open spec fn placement_error(b: BoardModel, ps: Seq<(usize, usize, String)>, dir: Direction) -> Option<Seq<char>> {
    let g = first_gap_from(b, ps, dir, 0);
    if ps.len() == 0 {
        Some("No tiles placed"@)
    } else if !in_line(ps, dir) {
        match dir {
            Direction::Across => Some("Tiles not in same row for across play"@),
            Direction::Down => Some("Tiles not in same column for down play"@),
        }
    } else if g >= 0 {
        let sq = square_at(dir, line_of(ps, dir), min_along(ps, dir) + g);
        Some(gap_message(sq.0, sq.1))
    } else if !b.has_tiles() {
        if covers_center(ps) { None } else { Some("First move must cover the center square (7,7)"@) }
    } else if connected(b, ps) {
        None
    } else {
        Some("Tiles must connect to existing tiles on the board"@)
    }
}

/// The inputs on which the check of a move stays within machine integers:
/// once the board has tiles, neighbours are found in `i32` arithmetic.
pub open spec fn placement_in_range(b: BoardModel, ps: Seq<(usize, usize, String)>, dir: Direction) -> bool {
    (in_line(ps, dir) && first_gap_from(b, ps, dir, 0) < 0 && b.has_tiles()) ==> forall|i: int|
        0 <= i < ps.len() && (forall|j: int| 0 <= j < i ==> !touches_tile(b, (#[trigger] ps[j]).0, ps[j].1))
            ==> i32_safe((#[trigger] ps[i]).0, ps[i].1)
}

/// Whether a square's neighbours can be computed in `i32` arithmetic.
pub open spec fn i32_safe(row: usize, col: usize) -> bool {
    &&& row as i32 != i32::MIN && row as i32 != i32::MAX
    &&& col as i32 != i32::MIN && col as i32 != i32::MAX
}

proof fn lemma_first_gap_from(b: BoardModel, ps: Seq<(usize, usize, String)>, dir: Direction, k: int)
    requires
        0 <= k,
    ensures
        first_gap_from(b, ps, dir, k) == -1 || (k <= first_gap_from(b, ps, dir, k) <= max_along(ps, dir) - min_along(ps, dir)
            && gap_at(b, ps, dir, first_gap_from(b, ps, dir, k))),
        first_gap_from(b, ps, dir, k) == -1 ==> forall|j: int| k <= j <= max_along(ps, dir) - min_along(ps, dir) ==> !gap_at(b, ps, dir, j),
        forall|j: int| k <= j < first_gap_from(b, ps, dir, k) ==> !gap_at(b, ps, dir, j),
    decreases max_along(ps, dir) - min_along(ps, dir) - k + 1,
{
    if k <= max_along(ps, dir) - min_along(ps, dir) && !gap_at(b, ps, dir, k) {
        lemma_first_gap_from(b, ps, dir, k + 1);
    }
}

/// Past the edge of the board no hole is left.
proof fn lemma_no_gap_off_board(b: BoardModel, ps: Seq<(usize, usize, String)>, dir: Direction, k: int)
    requires
        0 <= k,
        min_along(ps, dir) + k >= b.size,
    ensures
        first_gap_from(b, ps, dir, k) == -1,
    decreases max_along(ps, dir) - min_along(ps, dir) - k + 1,
{
    if k <= max_along(ps, dir) - min_along(ps, dir) {
        let sq = square_at(dir, line_of(ps, dir), min_along(ps, dir) + k);
        assert(!b.on_board(sq.0, sq.1));
        lemma_no_gap_off_board(b, ps, dir, k + 1);
    }
}

/// The move is contiguous exactly when it leaves no hole.
pub proof fn lemma_contiguous_iff_no_gap(b: BoardModel, ps: Seq<(usize, usize, String)>, dir: Direction)
    ensures
        contiguous(b, ps, dir) <==> first_gap_from(b, ps, dir, 0) == -1,
{
    lemma_first_gap_from(b, ps, dir, 0);
    let lo = min_along(ps, dir);
    let hi = max_along(ps, dir);
    if first_gap_from(b, ps, dir, 0) == -1 {
        assert forall|pos: int| lo <= pos <= hi implies #[trigger] covered(b, ps, dir, pos) by {
            assert(!gap_at(b, ps, dir, pos - lo));
        }
    } else {
        let g = first_gap_from(b, ps, dir, 0);
        assert(gap_at(b, ps, dir, g));
        assert(!contiguous(b, ps, dir)) by {
            let pos = lo + g;
            assert(lo <= pos <= hi);
            assert(!covered(b, ps, dir, pos));
        }
    }
}

proof fn lemma_min_along(ps: Seq<(usize, usize, String)>, dir: Direction)
    requires
        ps.len() > 0,
    ensures
        exists|i: int| 0 <= i < ps.len() && along(#[trigger] ps[i], dir) == min_along(ps, dir),
        forall|i: int| 0 <= i < ps.len() ==> min_along(ps, dir) <= along(#[trigger] ps[i], dir),
    decreases ps.len(),
{
    if ps.len() > 1 {
        lemma_min_along(ps.drop_last(), dir);
        let j = choose|i: int| 0 <= i < ps.drop_last().len() && along(#[trigger] ps.drop_last()[i], dir) == min_along(ps.drop_last(), dir);
        assert(ps[j] == ps.drop_last()[j]);
        assert forall|i: int| 0 <= i < ps.len() implies min_along(ps, dir) <= along(#[trigger] ps[i], dir) by {
            if i < ps.len() - 1 {
                assert(ps[i] == ps.drop_last()[i]);
            }
        }
    } else {
        assert(along(ps[0], dir) == min_along(ps, dir));
    }
}

/// The coordinate of a placement along the direction of play.
fn along_exec(p: &(usize, usize, String), direction: Direction) -> (a: usize)
    ensures
        a as int == along(*p, direction),
{
    match direction {
        Direction::Across => p.1,
        Direction::Down => p.0,
    }
}

/// The smallest coordinate along the direction of play.
fn min_along_of(placements: &Placements, direction: Direction) -> (start: usize)
    requires
        placements@.len() > 0,
    ensures
        start as int == min_along(placements@, direction),
{
    let ghost ps = placements@;
    let n = placements.len();
    let mut start = along_exec(&placements[0], direction);
    let mut i: usize = 1;
    assert(ps.take(1).drop_last() =~= Seq::<(usize, usize, String)>::empty());
    while i < n
        invariant
            n == ps.len(),
            ps == placements@,
            1 <= i <= n,
            start as int == min_along(ps.take(i as int), direction),
        decreases n - i,
    {
        let a = along_exec(&placements[i], direction);
        assert(ps.take(i + 1).drop_last() =~= ps.take(i as int));
        if a < start {
            start = a;
        }
        i = i + 1;
    }
    assert(ps.take(n as int) =~= ps);
    start
}

proof fn lemma_max_along(ps: Seq<(usize, usize, String)>, dir: Direction)
    requires
        ps.len() > 0,
    ensures
        forall|i: int| 0 <= i < ps.len() ==> along(#[trigger] ps[i], dir) <= max_along(ps, dir),
    decreases ps.len(),
{
    if ps.len() > 1 {
        lemma_max_along(ps.drop_last(), dir);
        assert forall|i: int| 0 <= i < ps.len() implies along(#[trigger] ps[i], dir) <= max_along(ps, dir) by {
            if i < ps.len() - 1 {
                assert(ps[i] == ps.drop_last()[i]);
            }
        }
    }
}

/// The largest coordinate along the direction of play.
fn max_along_of(placements: &Placements, direction: Direction) -> (end: usize)
    requires
        placements@.len() > 0,
    ensures
        end as int == max_along(placements@, direction),
{
    let ghost ps = placements@;
    let n = placements.len();
    let mut end = along_exec(&placements[0], direction);
    let mut i: usize = 1;
    assert(ps.take(1).drop_last() =~= Seq::<(usize, usize, String)>::empty());
    while i < n
        invariant
            n == ps.len(),
            ps == placements@,
            1 <= i <= n,
            end as int == max_along(ps.take(i as int), direction),
        decreases n - i,
    {
        let a = along_exec(&placements[i], direction);
        assert(ps.take(i + 1).drop_last() =~= ps.take(i as int));
        if a > end {
            end = a;
        }
        i = i + 1;
    }
    assert(ps.take(n as int) =~= ps);
    end
}

/// Whether some placement lies at `pos` along the direction of play.
fn placed_at_exec(placements: &Placements, direction: Direction, pos: usize) -> (res: bool)
    ensures
        res == placed_at(placements@, direction, pos as int),
{
    let ghost ps = placements@;
    let n = placements.len();
    let mut j: usize = 0;
    while j < n
        invariant
            n == ps.len(),
            ps == placements@,
            0 <= j <= n,
            forall|i: int| 0 <= i < j ==> along(#[trigger] ps[i], direction) != pos,
        decreases n - j,
    {
        if along_exec(&placements[j], direction) == pos {
            return true;
        }
        j = j + 1;
    }
    false
}

/// Whether the placements are non-empty and lie in one line of direction `direction`.
fn in_line_exec(placements: &Placements, direction: Direction) -> (res: bool)
    ensures
        res == in_line(placements@, direction),
{
    let ghost ps = placements@;
    let n = placements.len();
    if n == 0 {
        return false;
    }
    let mut i: usize = 0;
    while i < n
        invariant
            n == ps.len(),
            ps == placements@,
            n > 0,
            0 <= i <= n,
            forall|j: int| 0 <= j < i ==> match direction {
                Direction::Across => (#[trigger] ps[j]).0 == ps[0].0,
                Direction::Down => ps[j].1 == ps[0].1,
            },
        decreases n - i,
    {
        let same = match direction {
            Direction::Across => placements[i].0 == placements[0].0,
            Direction::Down => placements[i].1 == placements[0].1,
        };
        if !same {
            return false;
        }
        i = i + 1;
    }
    true
}

/// The message of a gap at (row, col).
fn gap_text(row: usize, col: usize) -> (res: String)
    ensures
        res@ == gap_message(row as int, col as int),
{
    let mut s = "Tiles must be contiguous (gap at ".to_owned();
    push_decimal(&mut s, row);
    s.append(",");
    push_decimal(&mut s, col);
    s.append(")");
    s
}

impl Game {
    /// Validate that the placement is legal (contiguous, connected, through
    /// center if first move). `direction` is the direction the placements
    /// share: their row when across, their column when down.
    pub(crate) fn validate_placement(&self, placements: &Placements, direction: Direction) -> (res: Result<(), String>)
        requires
            self.board.wf(),
            placement_in_range(self.board.model(), placements@, direction),
        ensures
            match placement_error(self.board.model(), placements@, direction) {
                Some(m) => res matches Err(e) && e@ == m,
                None => res is Ok,
            },
            res is Ok <==> in_line(placements@, direction) && contiguous(self.board.model(), placements@, direction) && (if self.board.has_tiles() {
                connected(self.board.model(), placements@)
            } else {
                covers_center(placements@)
            }),
    {
        let ghost ps = placements@;
        proof {
            lemma_contiguous_iff_no_gap(self.board.model(), ps, direction);
            lemma_first_gap_from(self.board.model(), ps, direction, 0);
        }
        if placements.len() == 0 {
            return Err("No tiles placed".to_owned());
        }
        if !in_line_exec(placements, direction) {
            return match direction {
                Direction::Across => Err("Tiles not in same row for across play".to_owned()),
                Direction::Down => Err("Tiles not in same column for down play".to_owned()),
            };
        }
        let n = placements.len();
        match self.first_gap(placements, direction) {
            Some((r, c)) => {
                return Err(gap_text(r, c));
            },
            None => {},
        }
        // the first move covers the centre; later moves touch a tile
        if !self.board_has_tiles() {
            let mut covers = false;
            let mut i: usize = 0;
            while i < n
                invariant
                    n == ps.len(),
                    ps == placements@,
                    0 <= i <= n,
                    covers == exists|j: int| 0 <= j < i && (#[trigger] ps[j]).0 == 7 && ps[j].1 == 7,
                decreases n - i,
            {
                if placements[i].0 == 7 && placements[i].1 == 7 {
                    covers = true;
                }
                i = i + 1;
            }
            if !covers {
                return Err("First move must cover the center square (7,7)".to_owned());
            }
        } else {
            let mut any = false;
            let mut i: usize = 0;
            while i < n && !any
                invariant
                    n == ps.len(),
                    ps == placements@,
                    self.board.wf(),
                    self.board.has_tiles(),
                    in_line(ps, direction),
                    first_gap_from(self.board.model(), ps, direction, 0) < 0,
                    placement_in_range(self.board.model(), ps, direction),
                    0 <= i <= n,
                    !any ==> forall|j: int| 0 <= j < i ==> !touches_tile(self.board.model(), (#[trigger] ps[j]).0, ps[j].1),
                    any ==> exists|j: int| 0 <= j < i && touches_tile(self.board.model(), (#[trigger] ps[j]).0, ps[j].1),
                decreases n - i,
            {
                if self.touches(placements[i].0, placements[i].1) {
                    any = true;
                }
                i = i + 1;
            }
            if !any {
                return Err("Tiles must connect to existing tiles on the board".to_owned());
            }
        }
        Ok(())
    }

    /// The first square between the first and the last placed square that
    /// holds neither a tile nor a placement, if there is one.
    fn first_gap(&self, placements: &Placements, direction: Direction) -> (res: Option<(usize, usize)>)
        requires
            self.board.wf(),
            placements@.len() > 0,
        ensures
            res is Some <==> first_gap_from(self.board.model(), placements@, direction, 0) >= 0,
            res matches Some(sq) ==> {
                let g = first_gap_from(self.board.model(), placements@, direction, 0);
                (sq.0 as int, sq.1 as int) == square_at(direction, line_of(placements@, direction), min_along(placements@, direction) + g)
            },
    {
        let ghost ps = placements@;
        let ghost b = self.board.model();
        let start = min_along_of(placements, direction);
        let end = max_along_of(placements, direction);
        proof {
            lemma_min_along(ps, direction);
            lemma_max_along(ps, direction);
        }
        let line: usize = match direction {
            Direction::Across => placements[0].0,
            Direction::Down => placements[0].1,
        };
        let size = self.board.size;
        let mut pos: usize = start;
        while pos <= end && pos < size
            invariant
                ps == placements@,
                b == self.board.model(),
                self.board.wf(),
                size == self.board.size,
                start as int == min_along(ps, direction),
                end as int == max_along(ps, direction),
                start <= end,
                line as int == line_of(ps, direction),
                start <= pos,
                pos <= end + 1,
                first_gap_from(b, ps, direction, 0) == first_gap_from(b, ps, direction, pos - start),
            decreases end + 1 - pos,
        {
            let (r, c) = match direction {
                Direction::Across => (line, pos),
                Direction::Down => (pos, line),
            };
            let placed = placed_at_exec(placements, direction, pos);
            if !placed && r < size && c < size && self.board.squares[r][c].tile.is_none() {
                assert(gap_at(b, ps, direction, pos - start));
                return Some((r, c));
            }
            assert(!gap_at(b, ps, direction, pos - start));
            pos = pos + 1;
        }
        proof {
            if pos < size {
                assert(pos - start > end - start);
            } else {
                lemma_no_gap_off_board(b, ps, direction, pos - start);
            }
        }
        None
    }

    /// Whether checking the placements stays within machine integers.
    pub(crate) fn placement_fits(&self, placements: &Placements, direction: Direction) -> (res: bool)
        requires
            self.board.wf(),
        ensures
            res == placement_in_range(self.board.model(), placements@, direction),
    {
        let ghost ps = placements@;
        let ghost b = self.board.model();
        let n = placements.len();
        if !in_line_exec(placements, direction) {
            return true;
        }
        let gap = self.first_gap(placements, direction).is_some();
        if gap || !self.board_has_tiles() {
            return true;
        }
        let mut i: usize = 0;
        while i < n
            invariant
                n == ps.len(),
                ps == placements@,
                b == self.board.model(),
                self.board.wf(),
                in_line(ps, direction),
                first_gap_from(b, ps, direction, 0) < 0,
                b.has_tiles(),
                0 <= i <= n,
                forall|j: int| 0 <= j < i ==> !touches_tile(b, (#[trigger] ps[j]).0, ps[j].1),
                forall|j: int| 0 <= j < i ==> i32_safe((#[trigger] ps[j]).0, ps[j].1),
            decreases n - i,
        {
            let (r, c) = (placements[i].0, placements[i].1);
            if r as i32 == i32::MIN || r as i32 == i32::MAX || c as i32 == i32::MIN || c as i32 == i32::MAX {
                return false;
            }
            if self.touches(r, c) {
                return true;
            }
            i = i + 1;
        }
        true
    }

    /// Whether (r, c), taken as signed coordinates, is on the board with a tile.
    fn tile_near(&self, r: i32, c: i32) -> (res: bool)
        requires
            self.board.wf(),
        ensures
            res == tile_near(self.board.model(), r as int, c as int),
    {
        if r >= 0 && r < self.board.size as i32 && c >= 0 && c < self.board.size as i32 {
            self.board.squares[r as usize][c as usize].tile.is_some()
        } else {
            false
        }
    }

    /// Whether the square at (row, col), read as `i32` coordinates, has a tile next to it.
    fn touches(&self, row: usize, col: usize) -> (res: bool)
        requires
            self.board.wf(),
            row as i32 != i32::MIN,
            row as i32 != i32::MAX,
            col as i32 != i32::MIN,
            col as i32 != i32::MAX,
        ensures
            res == touches_tile(self.board.model(), row, col),
    {
        let r = row as i32;
        let c = col as i32;
        self.tile_near(r - 1, c) || self.tile_near(r + 1, c) || self.tile_near(r, c - 1) || self.tile_near(r, c + 1)
    }

    /// Whether any square of the board holds a tile.
    pub(crate) fn board_has_tiles(&self) -> (res: bool)
        requires
            self.board.wf(),
        ensures
            res == self.board.has_tiles(),
    {
        let size = self.board.size;
        let mut r: usize = 0;
        while r < size
            invariant
                self.board.wf(),
                size == self.board.size,
                0 <= r <= size,
                forall|rr: int, cc: int| 0 <= rr < r && 0 <= cc < size ==> #[trigger] self.board.model().cell(rr, cc).tile is None,
            decreases size - r,
        {
            let mut c: usize = 0;
            while c < size
                invariant
                    self.board.wf(),
                    size == self.board.size,
                    0 <= r < size,
                    0 <= c <= size,
                    forall|rr: int, cc: int| 0 <= rr < r && 0 <= cc < size ==> #[trigger] self.board.model().cell(rr, cc).tile is None,
                    forall|cc: int| 0 <= cc < c ==> #[trigger] self.board.model().cell(r as int, cc).tile is None,
                decreases size - c,
            {
                if self.board.squares[r][c].tile.is_some() {
                    assert(self.board.model().on_board(r as int, c as int) && self.board.model().cell(r as int, c as int).tile is Some);
                    return true;
                }
                c = c + 1;
            }
            r = r + 1;
        }
        false
    }
}

} // verus!
