//! Ibani Scrabble tiles: the letter distribution of the standard bag and the
//! point value of each letter.
//!
//! Under-dotted letters are merged into their plain base letters, and tone
//! marks are not tiles of their own. Two blank (wild) tiles are included.

use vstd::prelude::*;
use crate::text::{push_char, same_text};

verus! {

/// A single letter tile.
pub struct Tile {
    /// The Ibani letter (a blank tile has the letter `" "`).
    pub letter: String,
    /// The point value of the tile.
    pub value: u8,
}

impl Clone for Tile {
    fn clone(&self) -> (res: Self)
        ensures
            res == *self,
    {
        Tile { letter: self.letter.clone(), value: self.value }
    }
}

/// The full tile bag for the game.
pub struct TileBag {
    pub tiles: Vec<Tile>,
    pub remaining: usize,
}

/// One row of the distribution table: a letter, how many tiles carry it,
/// and its point value.
pub open spec fn distribution() -> Seq<(char, nat, u8)> {
    seq![
        ('a', 12, 1), ('i', 20, 1), ('e', 16, 1), ('o', 16, 1), ('u', 12, 1),
        ('n', 10, 1), ('m', 9, 1), ('r', 8, 1),
        ('g', 6, 2), ('s', 6, 2), ('p', 6, 2), ('b', 10, 2), ('h', 5, 2), ('k', 5, 2),
        ('d', 4, 3), ('t', 4, 3), ('w', 4, 3), ('y', 4, 3),
        ('l', 3, 4), ('f', 3, 4),
        ('j', 2, 6), ('z', 2, 6), ('v', 1, 8),
        (' ', 2, 0),
    ]
}

/// The point value of a letter of the distribution, `None` for any other character.
pub open spec fn letter_value(c: char) -> Option<u8> {
    if c == 'a' || c == 'i' || c == 'e' || c == 'o' || c == 'u' || c == 'n' || c == 'm' || c == 'r' {
        Some(1u8)
    } else if c == 'g' || c == 's' || c == 'p' || c == 'b' || c == 'h' || c == 'k' {
        Some(2u8)
    } else if c == 'd' || c == 't' || c == 'w' || c == 'y' {
        Some(3u8)
    } else if c == 'l' || c == 'f' {
        Some(4u8)
    } else if c == 'j' || c == 'z' {
        Some(6u8)
    } else if c == 'v' {
        Some(8u8)
    } else if c == ' ' {
        Some(0u8)
    } else {
        None
    }
}

/// The tiles that the first `n` rows of a distribution table produce, in order:
/// each row contributes `count` copies of its (letter, value).
pub open spec fn tiles_of(rows: Seq<(char, nat, u8)>) -> Seq<(Seq<char>, u8)>
    decreases rows.len(),
{
    if rows.len() == 0 {
        Seq::empty()
    } else {
        let last = rows.last();
        tiles_of(rows.drop_last()) + Seq::new(last.1, |_i: int| (seq![last.0], last.2))
    }
}

/// The contents of the standard bag, as (letter, value) pairs in bag order.
pub open spec fn standard_bag() -> Seq<(Seq<char>, u8)> {
    tiles_of(distribution())
}

/// A tile seen as its (letter, value) pair.
pub open spec fn tile_view(t: Tile) -> (Seq<char>, u8) {
    (t.letter@, t.value)
}

/// A sequence of tiles seen as (letter, value) pairs.
pub open spec fn tiles_view(s: Seq<Tile>) -> Seq<(Seq<char>, u8)> {
    s.map_values(|t: Tile| tile_view(t))
}

/// Number of tiles the first `n` rows of a table produce.
pub open spec fn count_of(rows: Seq<(char, nat, u8)>) -> nat
    decreases rows.len(),
{
    if rows.len() == 0 {
        0
    } else {
        count_of(rows.drop_last()) + rows.last().1
    }
}

proof fn lemma_tiles_of_len(rows: Seq<(char, nat, u8)>)
    ensures
        tiles_of(rows).len() == count_of(rows),
    decreases rows.len(),
{
    if rows.len() > 0 {
        lemma_tiles_of_len(rows.drop_last());
    }
}

/// The standard bag holds 170 tiles.
pub proof fn lemma_standard_bag_size()
    ensures
        standard_bag().len() == 170,
{
    lemma_tiles_of_len(distribution());
    reveal_with_fuel(count_of, 25);
    assert(count_of(distribution()) == 170);
}

/// Every row of the distribution table carries the value that `letter_value` gives its letter.
proof fn lemma_distribution_values(i: int)
    requires
        0 <= i < distribution().len(),
    ensures
        letter_value(distribution()[i].0) == Some(distribution()[i].2),
{
}

/// Every tile of the standard bag carries the point value of its letter:
/// the bag and the letter values agree.
pub proof fn lemma_bag_values_consistent(k: int)
    requires
        0 <= k < standard_bag().len(),
    ensures
        standard_bag()[k].0.len() == 1,
        letter_value(standard_bag()[k].0[0]) == Some(standard_bag()[k].1),
{
    lemma_tiles_of_values(distribution(), k);
}

proof fn lemma_tiles_of_values(rows: Seq<(char, nat, u8)>, k: int)
    requires
        0 <= k < tiles_of(rows).len(),
        rows.len() <= distribution().len(),
        forall|i: int| 0 <= i < rows.len() ==> #[trigger] rows[i] == distribution()[i],
    ensures
        exists|i: int| 0 <= i < rows.len() && tiles_of(rows)[k] == (seq![#[trigger] rows[i].0], rows[i].2),
    decreases rows.len(),
{
    let prefix = rows.drop_last();
    lemma_tiles_of_len(prefix);
    if k < tiles_of(prefix).len() {
        assert forall|i: int| 0 <= i < prefix.len() implies #[trigger] prefix[i] == distribution()[i] by {
            assert(prefix[i] == rows[i]);
        }
        lemma_tiles_of_values(prefix, k);
        let i = choose|i: int| 0 <= i < prefix.len() && tiles_of(prefix)[k] == (seq![#[trigger] prefix[i].0], prefix[i].2);
        assert(prefix[i] == rows[i]);
    } else {
        let i = rows.len() - 1;
        assert(tiles_of(rows)[k] == (seq![rows[i].0], rows[i].2));
    }
}

/// Build the standard Ibani Scrabble tile distribution.
///
/// Letters and their frequencies derived from corpus analysis.
/// Tone marks are NOT separate tiles — they're diacritics on base vowels.
/// A blank/wild tile is included (2 tiles).
pub fn standard_tile_bag() -> (bag: Vec<Tile>)
    ensures
        tiles_view(bag@) == standard_bag(),
        bag.len() == 170,
{
    let dist: Vec<(char, u32, u8)> = vec![
        ('a', 12, 1), ('i', 20, 1), ('e', 16, 1), ('o', 16, 1), ('u', 12, 1),
        ('n', 10, 1), ('m', 9, 1), ('r', 8, 1),
        ('g', 6, 2), ('s', 6, 2), ('p', 6, 2), ('b', 10, 2), ('h', 5, 2), ('k', 5, 2),
        ('d', 4, 3), ('t', 4, 3), ('w', 4, 3), ('y', 4, 3),
        ('l', 3, 4), ('f', 3, 4),
        ('j', 2, 6), ('z', 2, 6), ('v', 1, 8),
        (' ', 2, 0),
    ];
    let ghost table = distribution();
    assert(dist@.len() == table.len());
    assert forall|i: int| 0 <= i < table.len() implies
        (#[trigger] dist@[i]).0 == table[i].0 && dist@[i].1 as nat == table[i].1 && dist@[i].2 == table[i].2
    by {}
    let mut tiles: Vec<Tile> = Vec::new();
    let mut r: usize = 0;
    while r < dist.len()
        invariant
            0 <= r <= dist@.len(),
            dist@.len() == table.len(),
            forall|i: int| 0 <= i < table.len() ==>
                (#[trigger] dist@[i]).0 == table[i].0 && dist@[i].1 as nat == table[i].1 && dist@[i].2 == table[i].2,
            tiles_view(tiles@) == tiles_of(table.take(r as int)),
        decreases dist@.len() - r,
    {
        let (letter, count, value) = dist[r];
        let ghost before = tiles_view(tiles@);
        let mut k: u32 = 0;
        while k < count
            invariant
                0 <= k <= count,
                tiles_view(tiles@) == before + Seq::new(k as nat, |_i: int| (seq![letter], value)),
            decreases count - k,
        {
            let mut s = String::new();
            push_char(&mut s, letter);
            assert(s@ =~= seq![letter]);
            let ghost old_tiles = tiles@;
            tiles.push(Tile { letter: s, value });
            assert(tiles@ == old_tiles.push(tiles@.last()));
            assert(tiles_view(tiles@) =~= tiles_view(old_tiles).push((seq![letter], value)));
            assert(tiles_view(tiles@) =~= before + Seq::new((k + 1) as nat, |_i: int| (seq![letter], value)));
            k = k + 1;
        }
        assert(table.take(r + 1).drop_last() =~= table.take(r as int));
        assert(table.take(r + 1).last() == table[r as int]);
        r = r + 1;
    }
    assert(table.take(r as int) =~= table);
    proof { lemma_standard_bag_size(); }
    tiles
}

/// Point values of the letters, keyed by the one-letter string of each letter.
pub struct LetterPoints {
    entries: Vec<(String, u8)>,
}

/// The table of letter points: each letter of the distribution, as a
/// one-letter string, with its point value, in distribution order.
pub open spec fn points_table() -> Seq<(Seq<char>, u8)> {
    distribution().map_values(|d: (char, nat, u8)| (seq![d.0], d.2))
}

impl View for LetterPoints {
    type V = Seq<(Seq<char>, u8)>;

    /// The entries, each letter as its characters.
    closed spec fn view(&self) -> Seq<(Seq<char>, u8)> {
        self.entries@.map_values(|e: (String, u8)| (e.0@, e.1))
    }
}

impl LetterPoints {
    #[verifier::type_invariant]
    spec fn inv(&self) -> bool {
        &&& self.entries@.len() == distribution().len()
        &&& forall|i: int| 0 <= i < self.entries@.len() ==>
            (#[trigger] self.entries@[i]).0@ == seq![distribution()[i].0]
            && self.entries@[i].1 == distribution()[i].2
    }

    /// The value of `letter`, if it is a letter of the distribution.
    pub fn get(&self, letter: &str) -> (res: Option<&u8>)
        ensures
            res == (if letter@.len() == 1 && letter_value(letter@[0]) is Some {
                Some(&letter_value(letter@[0]).unwrap())
            } else {
                None::<&u8>
            }),
    {
        proof { use_type_invariant(self); }
        let mut i: usize = 0;
        while i < self.entries.len()
            invariant
                0 <= i <= self.entries@.len(),
                self.entries@.len() == distribution().len(),
                forall|j: int| 0 <= j < self.entries@.len() ==>
                    (#[trigger] self.entries@[j]).0@ == seq![distribution()[j].0]
                    && self.entries@[j].1 == distribution()[j].2,
                forall|j: int| 0 <= j < i ==> self.entries@[j].0@ != letter@,
            decreases self.entries@.len() - i,
        {
            if same_text(self.entries[i].0.as_str(), letter) {
                proof {
                    lemma_distribution_values(i as int);
                }
                return Some(&self.entries[i].1);
            }
            i = i + 1;
        }
        proof {
            if letter@.len() == 1 && letter_value(letter@[0]) is Some {
                let c = letter@[0];
                lemma_letter_in_distribution(c);
                let j = choose|j: int| 0 <= j < distribution().len() && distribution()[j].0 == c;
                assert(self.entries@[j].0@ == seq![c]);
                assert(letter@ =~= seq![c]);
            }
        }
        None
    }
}

proof fn lemma_letter_in_distribution(c: char)
    requires
        letter_value(c) is Some,
    ensures
        exists|j: int| 0 <= j < distribution().len() && #[trigger] distribution()[j].0 == c,
{
    let d = distribution();
    if c == 'a' { assert(d[0].0 == c); }
    else if c == 'i' { assert(d[1].0 == c); }
    else if c == 'e' { assert(d[2].0 == c); }
    else if c == 'o' { assert(d[3].0 == c); }
    else if c == 'u' { assert(d[4].0 == c); }
    else if c == 'n' { assert(d[5].0 == c); }
    else if c == 'm' { assert(d[6].0 == c); }
    else if c == 'r' { assert(d[7].0 == c); }
    else if c == 'g' { assert(d[8].0 == c); }
    else if c == 's' { assert(d[9].0 == c); }
    else if c == 'p' { assert(d[10].0 == c); }
    else if c == 'b' { assert(d[11].0 == c); }
    else if c == 'h' { assert(d[12].0 == c); }
    else if c == 'k' { assert(d[13].0 == c); }
    else if c == 'd' { assert(d[14].0 == c); }
    else if c == 't' { assert(d[15].0 == c); }
    else if c == 'w' { assert(d[16].0 == c); }
    else if c == 'y' { assert(d[17].0 == c); }
    else if c == 'l' { assert(d[18].0 == c); }
    else if c == 'f' { assert(d[19].0 == c); }
    else if c == 'j' { assert(d[20].0 == c); }
    else if c == 'z' { assert(d[21].0 == c); }
    else if c == 'v' { assert(d[22].0 == c); }
    else { assert(d[23].0 == c); }
}

/// Shorthand map: letter -> point value (`points_table`).
pub fn letter_points() -> (points: LetterPoints)
    ensures
        points@ == points_table(),
{
    let dist: Vec<(char, u8)> = vec![
        ('a', 1), ('i', 1), ('e', 1), ('o', 1), ('u', 1),
        ('n', 1), ('m', 1), ('r', 1),
        ('g', 2), ('s', 2), ('p', 2), ('b', 2), ('h', 2), ('k', 2),
        ('d', 3), ('t', 3), ('w', 3), ('y', 3),
        ('l', 4), ('f', 4),
        ('j', 6), ('z', 6), ('v', 8),
        (' ', 0),
    ];
    let ghost table = distribution();
    assert forall|i: int| 0 <= i < table.len() implies
        (#[trigger] dist@[i]).0 == table[i].0 && dist@[i].1 == table[i].2
    by {}
    let mut entries: Vec<(String, u8)> = Vec::new();
    let mut i: usize = 0;
    while i < dist.len()
        invariant
            0 <= i <= dist@.len(),
            dist@.len() == table.len(),
            forall|j: int| 0 <= j < table.len() ==>
                (#[trigger] dist@[j]).0 == table[j].0 && dist@[j].1 == table[j].2,
            entries@.len() == i,
            forall|j: int| 0 <= j < i ==>
                (#[trigger] entries@[j]).0@ == seq![table[j].0] && entries@[j].1 == table[j].2,
        decreases dist@.len() - i,
    {
        let (c, v) = dist[i];
        let mut s = String::new();
        push_char(&mut s, c);
        assert(s@ =~= seq![c]);
        entries.push((s, v));
        i = i + 1;
    }
    let points = LetterPoints { entries };
    assert(points@ =~= points_table());
    points
}

} // verus!
