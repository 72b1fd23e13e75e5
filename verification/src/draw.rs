//! Drawing for the first turn: each player draws a tile, and the player
//! whose letter comes first (a blank beats every letter, then alphabetical
//! order) starts the game.

use vstd::prelude::*;
use vstd::string::*;
use crate::game::{Game, Player};
use crate::tiles::{Tile, tiles_view};
use crate::text::same_text;
use crate::random::shuffle_vec;

verus! {

/// Lexicographic order of character sequences by code point, the order
/// in which `String`s compare.
pub open spec fn lex_less(a: Seq<char>, b: Seq<char>) -> bool
    decreases a.len(),
{
    if a.len() == 0 {
        b.len() > 0
    } else if b.len() == 0 {
        false
    } else if a[0] != b[0] {
        (a[0] as int) < (b[0] as int)
    } else {
        lex_less(a.drop_first(), b.drop_first())
    }
}

/// Whether a drawn letter is the blank.
pub open spec fn is_blank(s: Seq<char>) -> bool {
    s == seq![' ']
}

/// Whether drawn letter `a` beats drawn letter `b`.
pub open spec fn precedes(a: Seq<char>, b: Seq<char>) -> bool {
    (is_blank(a) && !is_blank(b)) || (is_blank(a) == is_blank(b) && lex_less(a, b))
}

/// `i` is the draw that `Iterator::min_by` picks: it beats every earlier
/// draw, and no later draw beats it.
pub open spec fn is_first_best(letters: Seq<Seq<char>>, i: int) -> bool {
    &&& 0 <= i < letters.len()
    &&& forall|j: int| 0 <= j < i ==> precedes(letters[i], #[trigger] letters[j])
    &&& forall|j: int| i < j < letters.len() ==> !precedes(#[trigger] letters[j], letters[i])
}

proof fn lemma_lex_irreflexive(a: Seq<char>)
    ensures
        !lex_less(a, a),
    decreases a.len(),
{
    if a.len() > 0 {
        lemma_lex_irreflexive(a.drop_first());
    }
}

proof fn lemma_lex_transitive(a: Seq<char>, b: Seq<char>, c: Seq<char>)
    requires
        lex_less(a, b),
        lex_less(b, c),
    ensures
        lex_less(a, c),
    decreases a.len(),
{
    if a.len() > 0 && b.len() > 0 && c.len() > 0 {
        if a[0] == b[0] && b[0] == c[0] {
            lemma_lex_transitive(a.drop_first(), b.drop_first(), c.drop_first());
        }
    }
}

proof fn lemma_lex_total(a: Seq<char>, b: Seq<char>)
    requires
        a != b,
    ensures
        lex_less(a, b) || lex_less(b, a),
    decreases a.len(),
{
    if a.len() > 0 && b.len() > 0 && a[0] == b[0] {
        if a.drop_first() == b.drop_first() {
            assert(a =~= seq![a[0]] + a.drop_first());
            assert(b =~= seq![b[0]] + b.drop_first());
        }
        lemma_lex_total(a.drop_first(), b.drop_first());
    } else if a.len() == 0 && b.len() == 0 {
        assert(a =~= b);
    }
}

/// `precedes` is a strict weak order: irreflexive, and if `a` beats `b`
/// while `c` does not beat `b`, then `a` beats `c`.
proof fn lemma_precedes_order(a: Seq<char>, b: Seq<char>, c: Seq<char>)
    ensures
        !precedes(a, a),
        precedes(a, b) && !precedes(c, b) ==> precedes(a, c),
{
    lemma_lex_irreflexive(a);
    if precedes(a, b) && !precedes(c, b) {
        if is_blank(a) == is_blank(b) && is_blank(b) == is_blank(c) {
            if b != c {
                lemma_lex_total(b, c);
                lemma_lex_transitive(a, b, c);
            }
        }
    }
}

/// Whether `a` comes before `b` in code-point order.
fn text_less(a: &str, b: &str) -> (res: bool)
    ensures
        res == lex_less(a@, b@),
{
    let n = a.unicode_len();
    let m = b.unicode_len();
    let mut i: usize = 0;
    assert(a@.skip(0) =~= a@);
    assert(b@.skip(0) =~= b@);
    while i < n && i < m
        invariant
            n == a@.len(),
            m == b@.len(),
            0 <= i <= n,
            i <= m,
            a@.take(i as int) == b@.take(i as int),
            lex_less(a@, b@) == lex_less(a@.skip(i as int), b@.skip(i as int)),
        decreases n - i,
    {
        let x = a.get_char(i);
        let y = b.get_char(i);
        if x != y {
            assert(a@.skip(i as int)[0] == x);
            assert(b@.skip(i as int)[0] == y);
            return (x as u32) < (y as u32);
        }
        assert(a@.skip(i as int).drop_first() =~= a@.skip(i + 1));
        assert(b@.skip(i as int).drop_first() =~= b@.skip(i + 1));
        assert(a@.take(i + 1) =~= a@.take(i as int).push(x));
        assert(b@.take(i + 1) =~= b@.take(i as int).push(y));
        i = i + 1;
    }
    i == n && i < m
}

/// Whether the drawn letter is the blank.
fn text_is_blank(s: &str) -> (res: bool)
    ensures
        res == is_blank(s@),
{
    proof {
        reveal_strlit(" ");
        assert(" "@ =~= seq![' ']);
    }
    same_text(s, " ")
}

/// Whether draw `a` beats draw `b`.
fn draw_precedes(a: &str, b: &str) -> (res: bool)
    ensures
        res == precedes(a@, b@),
{
    let a_blank = text_is_blank(a);
    let b_blank = text_is_blank(b);
    if a_blank && !b_blank {
        true
    } else if a_blank == b_blank {
        text_less(a, b)
    } else {
        false
    }
}

/// The letters of the draws.
pub open spec fn draw_letters(draws: Seq<(String, String)>) -> Seq<Seq<char>> {
    draws.map_values(|d: (String, String)| d.1@)
}

/// The index of the winning draw; 0 when there are no draws.
pub fn first_drawer(draws: &Vec<(String, String)>) -> (w: usize)
    ensures
        draws@.len() == 0 ==> w == 0,
        draws@.len() > 0 ==> is_first_best(draw_letters(draws@), w as int),
{
    if draws.len() == 0 {
        return 0;
    }
    let ghost letters = draw_letters(draws@);
    let mut best: usize = 0;
    let mut i: usize = 1;
    while i < draws.len()
        invariant
            letters == draw_letters(draws@),
            1 <= i <= draws@.len(),
            is_first_best(letters.take(i as int), best as int),
        decreases draws@.len() - i,
    {
        let ghost prefix = letters.take(i as int);
        let ghost next = letters.take(i + 1);
        assert(letters[i as int] == draws@[i as int].1@);
        assert(letters[best as int] == draws@[best as int].1@);
        if draw_precedes(draws[i].1.as_str(), draws[best].1.as_str()) {
            proof {
                assert forall|j: int| 0 <= j < i implies precedes(next[i as int], #[trigger] next[j]) by {
                    assert(next[j] == prefix[j]);
                    if j < best {
                        lemma_precedes_order(next[i as int], prefix[best as int], prefix[j]);
                        assert(precedes(prefix[best as int], prefix[j]));
                        lemma_transitive_via(next[i as int], prefix[best as int], prefix[j]);
                    } else if j == best {
                    } else {
                        lemma_precedes_order(next[i as int], prefix[best as int], prefix[j]);
                    }
                }
                lemma_precedes_order(next[i as int], next[i as int], next[i as int]);
            }
            best = i;
        } else {
            proof {
                assert forall|j: int| 0 <= j < best implies precedes(next[best as int], #[trigger] next[j]) by {
                    assert(next[j] == prefix[j]);
                }
                assert forall|j: int| best < j < next.len() implies !precedes(#[trigger] next[j], next[best as int]) by {
                    if j < i {
                        assert(next[j] == prefix[j]);
                    }
                }
            }
        }
        i = i + 1;
    }
    assert(letters.take(i as int) =~= letters);
    best
}

proof fn lemma_transitive_via(a: Seq<char>, b: Seq<char>, c: Seq<char>)
    requires
        precedes(a, b),
        precedes(b, c),
    ensures
        precedes(a, c),
{
    lemma_lex_irreflexive(c);
    if !precedes(c, b) {
        lemma_precedes_order(a, b, c);
    } else {
        // c beats b and b beats c cannot both hold
        if is_blank(b) == is_blank(c) {
            lemma_lex_transitive(b, c, b);
            lemma_lex_irreflexive(b);
        }
    }
}

impl Game {
    /// Each player draws one tile to determine who goes first.
    /// The player with the letter closest to 'A' wins (blank wins all).
    /// Returns (first_player_index, Vec<(player_id, letter)>)
    ///
    /// The bag is shuffled, the players draw in order from its end (those
    /// after it runs out draw nothing), and the drawn tiles go back into the
    /// bag unchanged, in the order they were drawn.
    pub fn draw_for_first(&mut self) -> (res: (usize, Vec<(String, String)>))
        ensures
            ({
                let n = if old(self).players@.len() < old(self).tile_bag@.len() {
                    old(self).players@.len()
                } else {
                    old(self).tile_bag@.len()
                };
                let draws = res.1@;
                let bag = final(self).tile_bag@;
                &&& draws.len() == n
                &&& forall|i: int| 0 <= i < n ==> (#[trigger] draws[i]).0 == old(self).players@[i].id
                &&& exists|shuffled: Seq<Tile>| {
                    &&& #[trigger] shuffled.to_multiset() == old(self).tile_bag@.to_multiset()
                    &&& shuffled.len() == old(self).tile_bag@.len()
                    &&& forall|i: int| 0 <= i < n ==> (#[trigger] draws[i]).1@ == shuffled[shuffled.len() - 1 - i].letter@
                    &&& bag.len() == shuffled.len()
                    &&& bag.take(shuffled.len() - n) == shuffled.take(shuffled.len() - n)
                    &&& forall|i: int| 0 <= i < n ==> #[trigger] bag[shuffled.len() - n + i] == shuffled[shuffled.len() - 1 - i]
                }
                &&& n == 0 ==> res.0 == 0
                &&& n > 0 ==> is_first_best(draw_letters(draws), res.0 as int)
            }),
            final(self).tile_bag@.to_multiset() == old(self).tile_bag@.to_multiset(),
            final(self).board == old(self).board,
            final(self).players == old(self).players,
            final(self).current_turn == old(self).current_turn,
            final(self).phase == old(self).phase,
            final(self).consecutive_passes == old(self).consecutive_passes,
            final(self).dictionary == old(self).dictionary,
            final(self).winner == old(self).winner,
            final(self).tiles_placed_this_turn == old(self).tiles_placed_this_turn,
    {
        let ghost start = *self;
        shuffle_vec(&mut self.tile_bag);
        let ghost shuffled = self.tile_bag@;
        let ghost big_l = shuffled.len();
        let mut draws: Vec<(String, String)> = Vec::new();
        let mut drawn: Vec<Tile> = Vec::new();
        let mut i: usize = 0;
        proof {
            vstd::seq_lib::lemma_multiset_commutative(shuffled, Seq::<Tile>::empty());
            assert(shuffled + Seq::<Tile>::empty() =~= shuffled);
        }
        while i < self.players.len()
            invariant
                self.board == start.board,
                self.players == start.players,
                self.current_turn == start.current_turn,
                self.phase == start.phase,
                self.consecutive_passes == start.consecutive_passes,
                self.dictionary == start.dictionary,
                self.winner == start.winner,
                self.tiles_placed_this_turn == start.tiles_placed_this_turn,
                0 <= i <= self.players@.len(),
                big_l == shuffled.len(),
                draws@.len() == if i < big_l { i as int } else { big_l as int },
                drawn@.len() == draws@.len(),
                self.tile_bag@ == shuffled.take(big_l - draws@.len()),
                self.tile_bag@.to_multiset().add(drawn@.to_multiset()) == shuffled.to_multiset(),
                forall|k: int| 0 <= k < draws@.len() ==> (#[trigger] draws@[k]).0 == self.players@[k].id
                    && draws@[k].1@ == shuffled[big_l - 1 - k].letter@
                    && drawn@[k] == shuffled[big_l - 1 - k],
            decreases self.players@.len() - i,
        {
            let ghost before = self.tile_bag@;
            let ghost drawn_before = drawn@;
            match self.tile_bag.pop() {
                Some(tile) => {
                    assert(self.tile_bag@ =~= shuffled.take(big_l - draws@.len() - 1));
                    draws.push((self.players[i].id.clone(), tile.letter.clone()));
                    proof {
                        broadcast use vstd::multiset::group_multiset_axioms;
                        assert(before =~= self.tile_bag@ + seq![tile]);
                        vstd::seq_lib::lemma_multiset_commutative(self.tile_bag@, seq![tile]);
                        vstd::seq_lib::lemma_multiset_commutative(drawn_before, seq![tile]);
                        assert(drawn_before.push(tile) =~= drawn_before + seq![tile]);
                        assert(self.tile_bag@.to_multiset().add(drawn_before.push(tile).to_multiset())
                            =~= before.to_multiset().add(drawn_before.to_multiset()));
                    }
                    drawn.push(tile);
                },
                None => {},
            }
            i = i + 1;
        }
        let winner_idx = first_drawer(&draws);
        let ghost prefix = self.tile_bag@;
        let ghost back = drawn@;
        // Put the tiles back
        self.tile_bag.append(&mut drawn);
        proof {
            vstd::seq_lib::lemma_multiset_commutative(prefix, back);
            let n = back.len();
            assert(self.tile_bag@ == prefix + back);
            assert(self.tile_bag@.take(big_l - n) =~= prefix);
            assert forall|i: int| 0 <= i < n implies #[trigger] self.tile_bag@[big_l - n + i] == shuffled[big_l - 1 - i] by {
                assert(prefix.len() == big_l - n);
                assert(self.tile_bag@[big_l - n + i] == back[i]);
                assert(draws@[i].0 == self.players@[i].id);
            }
        }
        (winner_idx, draws)
    }
}

} // verus!
