//! Game board logic for Ibani Scrabble: a standard 15x15 board with premium squares.

use vstd::prelude::*;
use vstd::string::*;
use crate::text::{decimal, push_decimal};

verus! {

/// Direction a word is played.
#[derive(Debug, Clone, Copy, PartialEq, Eq, Structural)]
pub enum Direction {
    Across,
    Down,
}

/// Premium square types on the board.
#[derive(Debug, Clone, Copy, PartialEq, Eq, Structural)]
pub enum Premium {
    /// Double Letter Score
    DL,
    /// Triple Letter Score
    TL,
    /// Double Word Score
    DW,
    /// Triple Word Score
    TW,
    /// Normal square
    Normal,
}

/// A single square on the board.
pub struct Square {
    pub row: usize,
    pub col: usize,
    pub premium: Premium,
    /// The letter of the tile placed here, if any.
    pub tile: Option<String>,
    /// Index of the player who placed the tile, if any.
    pub owner: Option<u8>,
}

/// Copies a row of squares.
fn clone_row(row: &Vec<Square>) -> (res: Vec<Square>)
    ensures
        res@ == row@,
{
    let res = row.clone();
    assert forall|j: int| 0 <= j < row@.len() implies res@[j] == row@[j] by {
        assert(cloned::<Square>(row@[j], res@[j]));
    }
    assert(res@ =~= row@);
    res
}

impl Clone for Board {
    fn clone(&self) -> (res: Self)
        ensures
            res.size == self.size,
            res.cells() == self.cells(),
            res.model() == self.model(),
            self.wf() ==> res.wf(),
    {
        let mut squares: Vec<Vec<Square>> = Vec::new();
        let mut i: usize = 0;
        while i < self.squares.len()
            invariant
                0 <= i <= self.squares@.len(),
                squares@.len() == i,
                forall|j: int| 0 <= j < i ==> (#[trigger] squares@[j])@ == self.squares@[j]@,
            decreases self.squares@.len() - i,
        {
            squares.push(clone_row(&self.squares[i]));
            i = i + 1;
        }
        let res = Board { squares, size: self.size };
        assert(res.cells() =~= self.cells());
        res
    }
}

/// A square seen with its tile as a character sequence.
pub struct SquareView {
    pub row: usize,
    pub col: usize,
    pub premium: Premium,
    pub tile: Option<Seq<char>>,
    pub owner: Option<u8>,
}

/// The characters of an optional string.
pub open spec fn opt_text(t: Option<String>) -> Option<Seq<char>> {
    match t {
        Some(s) => Some(s@),
        None => None,
    }
}

impl View for Square {
    type V = SquareView;

    open spec fn view(&self) -> SquareView {
        SquareView {
            row: self.row,
            col: self.col,
            premium: self.premium,
            tile: opt_text(self.tile),
            owner: self.owner,
        }
    }
}

/// Copies an optional string.
pub fn clone_opt_string(t: &Option<String>) -> (res: Option<String>)
    ensures
        res == *t,
{
    match t {
        Some(s) => Some(s.clone()),
        None => None,
    }
}

impl Clone for Square {
    fn clone(&self) -> (res: Self)
        ensures
            res == *self,
    {
        Square {
            row: self.row,
            col: self.col,
            premium: self.premium,
            tile: clone_opt_string(&self.tile),
            owner: self.owner,
        }
    }
}

/// The 15x15 game board.
pub struct Board {
    pub squares: Vec<Vec<Square>>,
    pub size: usize,
}

/// Membership of a coordinate pair in a list of pairs.
pub open spec fn listed(list: Seq<(int, int)>, r: int, c: int) -> bool {
    exists|i: int| 0 <= i < list.len() && #[trigger] list[i] == (r, c)
}

/// Reflected coordinates at which a square is a triple letter score.
pub open spec fn tl_layout() -> Seq<(int, int)> {
    seq![(1, 5), (1, 9), (5, 1), (5, 5), (5, 9), (5, 13), (9, 1), (9, 5), (9, 9), (9, 13), (13, 5), (13, 9)]
}

/// Reflected coordinates at which a square is a double letter score.
pub open spec fn dl_layout() -> Seq<(int, int)> {
    seq![
        (0, 3), (0, 11), (2, 6), (2, 8), (3, 0), (3, 7), (3, 14), (6, 2), (6, 6), (6, 8), (6, 12),
        (7, 3), (7, 11), (8, 2), (8, 6), (8, 8), (8, 12), (11, 0), (11, 7), (11, 14), (12, 6),
        (12, 8), (14, 3), (14, 11),
    ]
}

/// Distance of a coordinate from the nearer edge of the board.
pub open spec fn reflect(x: int) -> int {
    if x <= 14 - x { x } else { 14 - x }
}

/// The premium of square (row, col) of the standard layout: the layout is
/// read on the coordinates reflected into the top-left quadrant.
pub open spec fn premium_spec(row: int, col: int) -> Premium {
    let r = reflect(row);
    let c = reflect(col);
    if row == 7 && col == 7 {
        Premium::DW
    } else if (r == 0 || r == 14) && (c == 0 || c == 7 || c == 14) {
        Premium::TW
    } else if r == 7 && (c == 0 || c == 14) {
        Premium::TW
    } else if r == c && (r == 1 || r == 2 || r == 3 || r == 4 || r == 10 || r == 11 || r == 12 || r == 13) {
        Premium::DW
    } else if listed(tl_layout(), r, c) || listed(tl_layout(), c, r) {
        Premium::TL
    } else if listed(dl_layout(), r, c) || listed(dl_layout(), c, r) {
        Premium::DL
    } else {
        Premium::Normal
    }
}

/// The premium layout (what `premium_at` gives, and what a new board holds)
/// has the symmetries of the square: mirroring a square across the main
/// diagonal, or across the middle row or column, keeps its premium.
pub proof fn lemma_premium_symmetry(row: int, col: int)
    requires
        0 <= row < 15,
        0 <= col < 15,
    ensures
        premium_spec(row, col) == premium_spec(col, row),
        premium_spec(row, col) == premium_spec(14 - row, col),
        premium_spec(row, col) == premium_spec(row, 14 - col),
{
}

/// Whether a pair occurs in an executable list of pairs.
fn contains_pair(list: &Vec<(usize, usize)>, r: usize, c: usize) -> (res: bool)
    ensures
        res == exists|i: int| 0 <= i < list@.len() && #[trigger] list@[i] == (r, c),
{
    let mut i: usize = 0;
    while i < list.len()
        invariant
            0 <= i <= list@.len(),
            forall|j: int| 0 <= j < i ==> list@[j] != (r, c),
        decreases list@.len() - i,
    {
        if list[i].0 == r && list[i].1 == c {
            return true;
        }
        i = i + 1;
    }
    false
}

proof fn lemma_listed(exec_list: Seq<(usize, usize)>, list: Seq<(int, int)>, r: usize, c: usize)
    requires
        exec_list.len() == list.len(),
        forall|i: int| 0 <= i < list.len() ==> (#[trigger] exec_list[i]).0 as int == list[i].0
            && exec_list[i].1 as int == list[i].1,
    ensures
        (exists|i: int| 0 <= i < exec_list.len() && #[trigger] exec_list[i] == (r, c))
            == listed(list, r as int, c as int),
{
    if listed(list, r as int, c as int) {
        let i = choose|i: int| 0 <= i < list.len() && #[trigger] list[i] == (r as int, c as int);
        assert(exec_list[i] == (r, c));
    }
    if exists|i: int| 0 <= i < exec_list.len() && #[trigger] exec_list[i] == (r, c) {
        let i = choose|i: int| 0 <= i < exec_list.len() && #[trigger] exec_list[i] == (r, c);
        assert(list[i] == (r as int, c as int));
    }
}

/// Whether the board has `size` rows of `size` squares each, with `size`
/// small enough for the signed coordinates that walks along the board use.
pub open spec fn board_wf(b: &Board) -> bool {
    &&& b.squares@.len() == b.size
    &&& b.size < 0x7fff_ffff
    &&& forall|r: int| 0 <= r < b.size ==> (#[trigger] b.squares@[r])@.len() == b.size
}

/// A square with a tile of `letter` placed by `player`.
pub open spec fn placed(sq: SquareView, letter: Seq<char>, player: u8) -> SquareView {
    SquareView { tile: Some(letter), owner: Some(player), ..sq }
}

/// The characters of an optional string slice.
pub open spec fn opt_str_text(t: Option<&str>) -> Option<Seq<char>> {
    match t {
        Some(s) => Some(s@),
        None => None,
    }
}

/// "(row, col)" in decimal, between a prefix and a suffix.
pub open spec fn position_text(prefix: Seq<char>, row: int, col: int, suffix: Seq<char>) -> Seq<char> {
    prefix + decimal(row as nat) + ", "@ + decimal(col as nat) + suffix
}

/// The message of a placement outside the board.
pub open spec fn out_of_bounds_message(row: int, col: int) -> Seq<char> {
    position_text("Position ("@, row, col, ") is out of bounds"@)
}

/// The message of a placement on an occupied square.
pub open spec fn occupied_message(row: int, col: int) -> Seq<char> {
    position_text("Square ("@, row, col, ") is already occupied"@)
}

/// Builds `prefix (row, col) suffix`.
pub fn position_message(prefix: &str, row: usize, col: usize, suffix: &str) -> (res: String)
    ensures
        res@ == position_text(prefix@, row as int, col as int, suffix@),
{
    let mut s: String = prefix.to_owned();
    push_decimal(&mut s, row);
    s.append(", ");
    push_decimal(&mut s, col);
    s.append(suffix);
    s
}

impl Default for Board {
    fn default() -> (board: Self)
        ensures
            board.wf(),
            board.size == 15,
            forall|r: int, c: int| 0 <= r < 15 && 0 <= c < 15 ==> #[trigger] board.cell(r, c) == (SquareView {
                row: r as usize,
                col: c as usize,
                premium: premium_spec(r, c),
                tile: None,
                owner: None,
            }),
    {
        Self::new()
    }
}

/// A board seen as its size and its squares, row by row.
pub struct BoardModel {
    pub cells: Seq<Seq<SquareView>>,
    pub size: int,
}

impl BoardModel {
    /// The square at (r, c).
    pub open spec fn cell(&self, r: int, c: int) -> SquareView {
        self.cells[r][c]
    }

    /// Whether (r, c) lies on the board.
    pub open spec fn on_board(&self, r: int, c: int) -> bool {
        0 <= r < self.size && 0 <= c < self.size
    }

    /// The tile at (r, c), or `None` off the board.
    pub open spec fn tile_spec(&self, r: int, c: int) -> Option<Seq<char>> {
        if self.on_board(r, c) { self.cell(r, c).tile } else { None }
    }

    /// Whether any square of the board holds a tile.
    pub open spec fn has_tiles(&self) -> bool {
        exists|r: int, c: int| self.on_board(r, c) && #[trigger] self.cell(r, c).tile is Some
    }

    /// The board with a tile of `letter` placed by `player` at (r, c).
    pub open spec fn with_tile(&self, r: int, c: int, letter: Seq<char>, player: u8) -> BoardModel {
        BoardModel { cells: self.cells.update(r, self.cells[r].update(c, placed(self.cell(r, c), letter, player))), size: self.size }
    }

    /// The board with the tile at (r, c) taken away.
    pub open spec fn without_tile(&self, r: int, c: int) -> BoardModel {
        BoardModel {
            cells: self.cells.update(r, self.cells[r].update(c, SquareView { tile: None, owner: None, ..self.cell(r, c) })),
            size: self.size,
        }
    }
}

impl Board {
    /// The board seen as its size and squares.
    pub open spec fn model(&self) -> BoardModel {
        BoardModel { cells: self.cells(), size: self.size as int }
    }

    /// The squares, row by row, each seen with its tile as characters.
    pub open spec fn cells(&self) -> Seq<Seq<SquareView>> {
        self.squares@.map_values(|row: Vec<Square>| row@.map_values(|sq: Square| sq@))
    }

    /// The square at (r, c).
    pub open spec fn cell(&self, r: int, c: int) -> SquareView {
        self.cells()[r][c]
    }

    /// Whether the board has `size` rows of `size` squares each.
    pub open spec fn wf(&self) -> bool {
        board_wf(self)
    }

    /// Whether (r, c) lies on the board.
    pub open spec fn on_board(&self, r: int, c: int) -> bool {
        self.model().on_board(r, c)
    }

    /// The tile at (r, c), or `None` off the board.
    pub open spec fn tile_spec(&self, r: int, c: int) -> Option<Seq<char>> {
        self.model().tile_spec(r, c)
    }

    /// Whether any square of the board holds a tile.
    pub open spec fn has_tiles(&self) -> bool {
        self.model().has_tiles()
    }

    /// Create a standard 15x15 Scrabble board with premium squares.
    pub fn new() -> (board: Self)
        ensures
            board.wf(),
            board.size == 15,
            forall|r: int, c: int| 0 <= r < 15 && 0 <= c < 15 ==> #[trigger] board.cell(r, c) == (SquareView {
                row: r as usize,
                col: c as usize,
                premium: premium_spec(r, c),
                tile: None,
                owner: None,
            }),
    {
        let size: usize = 15;
        let mut squares: Vec<Vec<Square>> = Vec::with_capacity(size);
        let mut row: usize = 0;
        while row < size
            invariant
                size == 15,
                0 <= row <= size,
                squares@.len() == row,
                forall|r: int| 0 <= r < row ==> (#[trigger] squares@[r])@.len() == 15,
                forall|r: int, c: int| 0 <= r < row && 0 <= c < 15 ==> #[trigger] squares@[r]@[c]@ == (SquareView {
                    row: r as usize,
                    col: c as usize,
                    premium: premium_spec(r, c),
                    tile: None,
                    owner: None,
                }),
            decreases size - row,
        {
            let mut row_squares: Vec<Square> = Vec::with_capacity(size);
            let mut col: usize = 0;
            while col < size
                invariant
                    size == 15,
                    0 <= row < size,
                    0 <= col <= size,
                    row_squares@.len() == col,
                    forall|c: int| 0 <= c < col ==> #[trigger] row_squares@[c]@ == (SquareView {
                        row: row,
                        col: c as usize,
                        premium: premium_spec(row as int, c),
                        tile: None,
                        owner: None,
                    }),
                decreases size - col,
            {
                let premium = Self::premium_at(row, col);
                row_squares.push(Square { row, col, premium, tile: None, owner: None });
                col = col + 1;
            }
            squares.push(row_squares);
            row = row + 1;
        }
        Board { squares, size }
    }

    /// Try to place a tile on the board.
    /// Returns an error if the square is already occupied.
    pub fn place_tile(&mut self, row: usize, col: usize, letter: &str, player: u8) -> (res: Result<(), String>)
        requires
            old(self).wf(),
        ensures
            final(self).wf(),
            final(self).size == old(self).size,
            !old(self).on_board(row as int, col as int) ==> {
                &&& res matches Err(e) && e@ == out_of_bounds_message(row as int, col as int)
                &&& final(self).cells() == old(self).cells()
            },
            old(self).on_board(row as int, col as int) && old(self).cell(row as int, col as int).tile is Some ==> {
                &&& res matches Err(e) && e@ == occupied_message(row as int, col as int)
                &&& final(self).cells() == old(self).cells()
            },
            old(self).on_board(row as int, col as int) && old(self).cell(row as int, col as int).tile is None ==> {
                &&& res is Ok
                &&& final(self).cells() == old(self).cells().update(
                    row as int,
                    old(self).cells()[row as int].update(col as int, placed(old(self).cell(row as int, col as int), letter@, player)),
                )
            },
    {
        if row >= self.size || col >= self.size {
            return Err(position_message("Position (", row, col, ") is out of bounds"));
        }
        if self.squares[row][col].tile.is_some() {
            return Err(position_message("Square (", row, col, ") is already occupied"));
        }
        let t = letter.to_owned();
        self.set_cell(row, col, Some(t), Some(player));
        Ok(())
    }

    /// Replaces the tile and owner of square (row, col), keeping its position and premium.
    pub(crate) fn set_cell(&mut self, row: usize, col: usize, tile: Option<String>, owner: Option<u8>)
        requires
            old(self).wf(),
            old(self).on_board(row as int, col as int),
        ensures
            final(self).wf(),
            final(self).size == old(self).size,
            final(self).cells() == old(self).cells().update(
                row as int,
                old(self).cells()[row as int].update(
                    col as int,
                    SquareView { tile: opt_text(tile), owner: owner, ..old(self).cell(row as int, col as int) },
                ),
            ),
            forall|r: int, c: int| old(self).on_board(r, c) ==> #[trigger] final(self).cell(r, c) == (if r == row && c == col {
                SquareView { tile: opt_text(tile), owner: owner, ..old(self).cell(r, c) }
            } else {
                old(self).cell(r, c)
            }),
    {
        let ghost prev = *self;
        let ghost before = self.cells();
        let ghost old_row = self.squares@[row as int]@;
        let ghost new_sq = SquareView { tile: opt_text(tile), owner: owner, ..self.cell(row as int, col as int) };
        self.squares[row][col].tile = tile;
        self.squares[row][col].owner = owner;
        assert(self.squares@[row as int]@.len() == old_row.len());
        assert(self.squares@[row as int]@[col as int]@ == new_sq);
        assert(self.cells()[row as int] =~= before[row as int].update(col as int, new_sq));
        assert(self.cells() =~= before.update(row as int, before[row as int].update(col as int, new_sq)));
        assert forall|r: int, c: int| prev.on_board(r, c) implies #[trigger] self.cell(r, c) == (if r == row && c == col {
            new_sq
        } else {
            prev.cell(r, c)
        }) by {
            assert(self.cells()[r][c] == self.cell(r, c));
            assert(prev.cells()[r][c] == prev.cell(r, c));
        }
    }

    /// Get a tile at a position.
    pub fn tile_at(&self, row: usize, col: usize) -> (res: Option<&str>)
        requires
            self.wf(),
            self.on_board(row as int, col as int),
        ensures
            opt_str_text(res) == self.cell(row as int, col as int).tile,
    {
        match &self.squares[row][col].tile {
            Some(s) => Some(s.as_str()),
            None => None,
        }
    }

    /// Check if a position is within bounds.
    pub fn in_bounds(&self, row: i32, col: i32) -> (res: bool)
        ensures
            res == (row >= 0 && row < self.size as i32 && col >= 0 && col < self.size as i32),
    {
        row >= 0 && row < self.size as i32 && col >= 0 && col < self.size as i32
    }

    /// Reset the board (clear all tiles).
    pub fn reset(&mut self)
        requires
            old(self).wf(),
        ensures
            final(self).wf(),
            final(self).size == old(self).size,
            forall|r: int, c: int| old(self).on_board(r, c) ==> #[trigger] final(self).cell(r, c) == (SquareView {
                tile: None,
                owner: None,
                ..old(self).cell(r, c)
            }),
    {
        let ghost before = *self;
        let mut row: usize = 0;
        while row < self.size
            invariant
                self.wf(),
                self.size == before.size,
                0 <= row <= self.size,
                forall|r: int, c: int| before.on_board(r, c) ==> #[trigger] self.cell(r, c) == (if r < row {
                    SquareView { tile: None, owner: None, ..before.cell(r, c) }
                } else {
                    before.cell(r, c)
                }),
            decreases self.size - row,
        {
            let mut col: usize = 0;
            while col < self.size
                invariant
                    self.wf(),
                    self.size == before.size,
                    0 <= row < self.size,
                    0 <= col <= self.size,
                    forall|r: int, c: int| before.on_board(r, c) ==> #[trigger] self.cell(r, c) == (if r < row || (r == row && c < col) {
                        SquareView { tile: None, owner: None, ..before.cell(r, c) }
                    } else {
                        before.cell(r, c)
                    }),
                decreases self.size - col,
            {
                self.set_cell(row, col, None, None);
                col = col + 1;
            }
            row = row + 1;
        }
    }

    /// Get premium square type for standard Scrabble layout.
    fn premium_at(row: usize, col: usize) -> (p: Premium)
        requires
            row <= 14,
            col <= 14,
        ensures
            p == premium_spec(row as int, col as int),
    {
        if row == 7 && col == 7 {
            return Premium::DW;
        }
        let r: usize = if row <= 14 - row { row } else { 14 - row };
        let c: usize = if col <= 14 - col { col } else { 14 - col };
        if (r == 0 || r == 14) && (c == 0 || c == 7 || c == 14) {
            return Premium::TW;
        }
        if r == 7 && (c == 0 || c == 14) {
            return Premium::TW;
        }
        if r == c && (r == 1 || r == 2 || r == 3 || r == 4 || r == 10 || r == 11 || r == 12 || r == 13) {
            return Premium::DW;
        }
        let tl_positions: Vec<(usize, usize)> = vec![
            (1, 5), (1, 9), (5, 1), (5, 5), (5, 9), (5, 13), (9, 1), (9, 5), (9, 9), (9, 13), (13, 5), (13, 9),
        ];
        proof {
            assert forall|i: int| 0 <= i < tl_layout().len() implies
                (#[trigger] tl_positions@[i]).0 as int == tl_layout()[i].0 && tl_positions@[i].1 as int == tl_layout()[i].1 by {}
            lemma_listed(tl_positions@, tl_layout(), r, c);
            lemma_listed(tl_positions@, tl_layout(), c, r);
        }
        if contains_pair(&tl_positions, r, c) || contains_pair(&tl_positions, c, r) {
            return Premium::TL;
        }
        let dl_positions: Vec<(usize, usize)> = vec![
            (0, 3), (0, 11), (2, 6), (2, 8), (3, 0), (3, 7), (3, 14), (6, 2), (6, 6), (6, 8), (6, 12),
            (7, 3), (7, 11), (8, 2), (8, 6), (8, 8), (8, 12), (11, 0), (11, 7), (11, 14), (12, 6),
            (12, 8), (14, 3), (14, 11),
        ];
        proof {
            assert forall|i: int| 0 <= i < dl_layout().len() implies
                (#[trigger] dl_positions@[i]).0 as int == dl_layout()[i].0 && dl_positions@[i].1 as int == dl_layout()[i].1 by {}
            lemma_listed(dl_positions@, dl_layout(), r, c);
            lemma_listed(dl_positions@, dl_layout(), c, r);
        }
        if contains_pair(&dl_positions, r, c) || contains_pair(&dl_positions, c, r) {
            return Premium::DL;
        }
        Premium::Normal
    }
}

} // verus!
