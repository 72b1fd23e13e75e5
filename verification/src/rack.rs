//! Taking tiles out of a player's rack: for a move (where a blank stands in
//! for a missing letter) and for an exchange (where it does not).

use vstd::prelude::*;
use crate::game::{Game, clone_tiles};
use crate::tiles::Tile;
use vstd::multiset::Multiset;
use crate::text::same_text;

verus! {

/// The position of the first tile of `rack` that carries `letter`, or -1.
pub open spec fn position_of(rack: Seq<Tile>, letter: Seq<char>) -> int
    decreases rack.len(),
{
    if rack.len() == 0 {
        -1
    } else if rack[0].letter@ == letter {
        0
    } else {
        let p = position_of(rack.drop_first(), letter);
        if p < 0 { -1 } else { p + 1 }
    }
}

pub(crate) proof fn lemma_position_of_bounds(rack: Seq<Tile>, letter: Seq<char>)
    ensures
        -1 <= position_of(rack, letter) < rack.len(),
        position_of(rack, letter) >= 0 ==> rack[position_of(rack, letter)].letter@ == letter,
    decreases rack.len(),
{
    if rack.len() > 0 {
        lemma_position_of_bounds(rack.drop_first(), letter);
    }
}

/// The position of the first tile carrying `letter`.
pub fn find_letter(rack: &Vec<Tile>, letter: &str) -> (res: Option<usize>)
    ensures
        match res {
            Some(i) => i as int == position_of(rack@, letter@) && i < rack@.len(),
            None => position_of(rack@, letter@) == -1,
        },
{
    let mut i: usize = 0;
    assert(rack@.skip(0) =~= rack@);
    while i < rack.len()
        invariant
            0 <= i <= rack@.len(),
            position_of(rack@, letter@) == (if position_of(rack@.skip(i as int), letter@) < 0 {
                -1
            } else {
                position_of(rack@.skip(i as int), letter@) + i
            }),
        decreases rack@.len() - i,
    {
        assert(rack@.skip(i as int)[0] == rack@[i as int]);
        if same_text(rack[i].letter.as_str(), letter) {
            return Some(i);
        }
        assert(rack@.skip(i as int).drop_first() =~= rack@.skip(i + 1));
        i = i + 1;
    }
    None
}

/// The letter that stands for a blank tile.
pub open spec fn blank_letter() -> Seq<char> {
    seq![' ']
}

/// The rack after one letter of a move is taken from it: the first tile of
/// that letter, else the first blank; `None` when there is neither.
pub open spec fn take_for_move(rack: Seq<Tile>, letter: Seq<char>) -> Option<Seq<Tile>> {
    let p = position_of(rack, letter);
    if p >= 0 {
        Some(rack.remove(p))
    } else {
        let b = position_of(rack, blank_letter());
        if b >= 0 { Some(rack.remove(b)) } else { None }
    }
}

/// The rack after the letters of a move are taken from it in order, and the
/// first letter that could not be taken, if any (the letters before it stay taken).
pub open spec fn rack_after_move(rack: Seq<Tile>, letters: Seq<Seq<char>>) -> (Seq<Tile>, Option<Seq<char>>)
    decreases letters.len(),
{
    if letters.len() == 0 {
        (rack, None)
    } else {
        let prev = rack_after_move(rack, letters.drop_last());
        if prev.1 is Some {
            prev
        } else {
            match take_for_move(prev.0, letters.last()) {
                Some(r) => (r, None),
                None => (prev.0, Some(letters.last())),
            }
        }
    }
}

/// The rack, the tiles taken out (in order), and the first letter that
/// could not be found, when the letters of an exchange are taken from the rack.
pub open spec fn rack_after_exchange(rack: Seq<Tile>, letters: Seq<Seq<char>>) -> (Seq<Tile>, Seq<Tile>, Option<Seq<char>>)
    decreases letters.len(),
{
    if letters.len() == 0 {
        (rack, Seq::empty(), None)
    } else {
        let prev = rack_after_exchange(rack, letters.drop_last());
        if prev.2 is Some {
            prev
        } else {
            let p = position_of(prev.0, letters.last());
            if p >= 0 {
                (prev.0.remove(p), prev.1.push(prev.0[p]), None)
            } else {
                (prev.0, prev.1, Some(letters.last()))
            }
        }
    }
}

/// The characters of a sequence of strings.
pub open spec fn texts(s: Seq<String>) -> Seq<Seq<char>> {
    s.map_values(|t: String| t@)
}

/// The message of a move that uses a letter the player lacks.
pub open spec fn missing_tile_message(letter: Seq<char>) -> Seq<char> {
    "Player doesn't have tile '"@ + letter + "'"@
}

/// The message of an exchange of a letter the player lacks.
pub open spec fn not_in_rack_message(letter: Seq<char>) -> Seq<char> {
    "Tile '"@ + letter + "' not in rack"@
}

/// Takes the letters of a move out of the rack, a blank standing in for a
/// missing letter. On failure the letters taken before the missing one stay out.
pub fn take_letters_for_move(rack: &mut Vec<Tile>, letters: &Vec<String>) -> (res: Result<(), String>)
    ensures
        final(rack)@ == rack_after_move(old(rack)@, texts(letters@)).0,
        match rack_after_move(old(rack)@, texts(letters@)).1 {
            Some(l) => res matches Err(e) && e@ == missing_tile_message(l),
            None => res is Ok,
        },
{
    let ghost start = rack@;
    let mut i: usize = 0;
    while i < letters.len()
        invariant
            0 <= i <= letters@.len(),
            start == old(rack)@,
            rack@ == rack_after_move(start, texts(letters@).take(i as int)).0,
            rack_after_move(start, texts(letters@).take(i as int)).1 is None,
        decreases letters@.len() - i,
    {
        let ghost before = rack@;
        assert(texts(letters@).take(i + 1).drop_last() =~= texts(letters@).take(i as int));
        assert(texts(letters@).take(i + 1).last() == letters@[i as int]@);
        proof {
            lemma_position_of_bounds(before, letters@[i as int]@);
            lemma_position_of_bounds(before, blank_letter());
        }
        match find_letter(rack, letters[i].as_str()) {
            Some(p) => {
                rack.remove(p);
            },
            None => {
                proof { reveal_strlit(" "); assert(" "@ =~= blank_letter()); }
                match find_letter(rack, " ") {
                    Some(b) => {
                        rack.remove(b);
                    },
                    None => {
                        assert(take_for_move(rack@, letters@[i as int]@) is None);
                        assert(rack_after_move(start, texts(letters@).take(i + 1)) == (rack@, Some(letters@[i as int]@)));
                        assert(texts(letters@).take(letters@.len() as int) =~= texts(letters@));
                        proof { lemma_move_stops(start, texts(letters@), i as int + 1); }
                        let mut msg = "Player doesn't have tile '".to_owned();
                        msg.append(letters[i].as_str());
                        msg.append("'");
                        return Err(msg);
                    },
                }
            },
        }
        i = i + 1;
    }
    assert(texts(letters@).take(letters@.len() as int) =~= texts(letters@));
    Ok(())
}

/// Once a move's letters fail, the later letters change nothing.
proof fn lemma_move_stops(rack: Seq<Tile>, letters: Seq<Seq<char>>, k: int)
    requires
        0 < k <= letters.len(),
        rack_after_move(rack, letters.take(k)).1 is Some,
    ensures
        rack_after_move(rack, letters) == rack_after_move(rack, letters.take(k)),
    decreases letters.len() - k,
{
    if k < letters.len() {
        assert(letters.take(k + 1).drop_last() =~= letters.take(k));
        lemma_move_stops(rack, letters, k + 1);
    } else {
        assert(letters.take(k) =~= letters);
    }
}

/// Once an exchange's letters fail, the later letters change nothing.
proof fn lemma_exchange_stops(rack: Seq<Tile>, letters: Seq<Seq<char>>, k: int)
    requires
        0 < k <= letters.len(),
        rack_after_exchange(rack, letters.take(k)).2 is Some,
    ensures
        rack_after_exchange(rack, letters) == rack_after_exchange(rack, letters.take(k)),
    decreases letters.len() - k,
{
    if k < letters.len() {
        assert(letters.take(k + 1).drop_last() =~= letters.take(k));
        lemma_exchange_stops(rack, letters, k + 1);
    } else {
        assert(letters.take(k) =~= letters);
    }
}

/// The characters of a slice of strings.
pub open spec fn slice_texts(s: &[String]) -> Seq<Seq<char>> {
    s@.map_values(|t: String| t@)
}

/// The game after the current player exchanges the tiles of the given
/// letters, and the exchange's result: as many new tiles as letters are
/// drawn from the end of the bag, then the tiles taken from the rack go to
/// the back of the bag; when a letter is missing the exchange fails, the
/// tiles taken before it are gone from the rack, and the bag is as it was.
pub open spec fn exchange_outcome(old: Game, letters: Seq<Seq<char>>, new: Game, res: Result<(), String>) -> bool {
    let idx = old.turn_index();
    let o = old.players@[idx];
    let out = rack_after_exchange(o.rack@, letters);
    let bag = old.tile_bag@;
    let n = bag.len();
    let k = if letters.len() < n { n - letters.len() } else { 0 };
    let p = new.players@[idx];
    &&& new.players@.len() == old.players@.len()
    &&& forall|i: int| 0 <= i < old.players@.len() && i != idx ==> #[trigger] new.players@[i] == old.players@[i]
    &&& p.id == o.id && p.name == o.name && p.score == o.score && p.ready == o.ready
    &&& p.is_bot == o.is_bot && p.bot_level == o.bot_level
    &&& match out.2 {
        Some(l) => {
            &&& res matches Err(e) && e@ == not_in_rack_message(l)
            &&& p.rack@ == out.0
            &&& new.tile_bag@ == old.tile_bag@
        },
        None => {
            &&& res is Ok
            &&& new.tile_bag@ == bag.subrange(0, k as int) + out.1
            &&& p.rack@ == out.0 + bag.subrange(k as int, n as int)
        },
    }
    &&& new.board == old.board
    &&& new.current_turn == old.current_turn
    &&& new.phase == old.phase
    &&& new.consecutive_passes == old.consecutive_passes
    &&& new.dictionary == old.dictionary
    &&& new.winner == old.winner
    &&& new.tiles_placed_this_turn == old.tiles_placed_this_turn
}

proof fn lemma_exchange_splits_rack(rack: Seq<Tile>, letters: Seq<Seq<char>>)
    requires
        rack_after_exchange(rack, letters).2 is None,
    ensures
        rack_after_exchange(rack, letters).0.to_multiset().add(rack_after_exchange(rack, letters).1.to_multiset()) == rack.to_multiset(),
    decreases letters.len(),
{
    broadcast use vstd::multiset::group_multiset_axioms;
    if letters.len() == 0 {
        assert(rack + Seq::<Tile>::empty() =~= rack);
        vstd::seq_lib::lemma_multiset_commutative(rack, Seq::<Tile>::empty());
    } else {
        let prev = rack_after_exchange(rack, letters.drop_last());
        assert(prev.2 is None);
        lemma_exchange_splits_rack(rack, letters.drop_last());
        let p = position_of(prev.0, letters.last());
        lemma_position_of_bounds(prev.0, letters.last());
        vstd::seq_lib::to_multiset_remove(prev.0, p);
        vstd::seq_lib::to_multiset_build(prev.1, prev.0[p]);
        vstd::seq_lib::to_multiset_contains(prev.0, prev.0[p]);
        assert(prev.0.contains(prev.0[p]));
        assert(prev.0.remove(p).to_multiset().add(prev.1.push(prev.0[p]).to_multiset()) =~= prev.0.to_multiset().add(prev.1.to_multiset()));
    }
}

/// An exchange keeps every tile: when it succeeds, the player's rack and the
/// bag hold together the same tiles as before.
pub proof fn lemma_exchange_keeps_tiles(old: Game, letters: Seq<Seq<char>>, new: Game)
    requires
        old.players@.len() > 0,
        exchange_outcome(old, letters, new, Ok(())),
    ensures
        new.players@[old.turn_index()].rack@.to_multiset().add(new.tile_bag@.to_multiset())
            == old.players@[old.turn_index()].rack@.to_multiset().add(old.tile_bag@.to_multiset()),
{
    broadcast use vstd::multiset::group_multiset_axioms;
    let idx = old.turn_index();
    let rack = old.players@[idx].rack@;
    let out = rack_after_exchange(rack, letters);
    lemma_exchange_splits_rack(rack, letters);
    let bag = old.tile_bag@;
    let n = bag.len();
    let k = if letters.len() < n { n - letters.len() } else { 0 };
    let front = bag.subrange(0, k as int);
    let back = bag.subrange(k as int, n as int);
    assert(bag =~= front + back);
    vstd::seq_lib::lemma_multiset_commutative(front, back);
    vstd::seq_lib::lemma_multiset_commutative(out.0, back);
    vstd::seq_lib::lemma_multiset_commutative(front, out.1);
    let lhs = (out.0 + back).to_multiset().add((front + out.1).to_multiset());
    let rhs = rack.to_multiset().add(bag.to_multiset());
    assert forall|x: Tile| lhs.count(x) == rhs.count(x) by {
        assert(bag.to_multiset().count(x) == front.to_multiset().count(x) + back.to_multiset().count(x));
        assert(rack.to_multiset().count(x) == out.0.to_multiset().count(x) + out.1.to_multiset().count(x));
    }
    assert(lhs =~= rhs);
}

/// The letters of a rack's tiles, in order.
pub open spec fn rack_letters(rack: Seq<Tile>) -> Seq<Seq<char>> {
    rack.map_values(|t: Tile| t.letter@)
}

proof fn lemma_position_of_found(rack: Seq<Tile>, letter: Seq<char>)
    ensures
        position_of(rack, letter) >= 0 <==> rack_letters(rack).contains(letter),
    decreases rack.len(),
{
    if rack.len() > 0 {
        lemma_position_of_found(rack.drop_first(), letter);
        let all = rack_letters(rack);
        let rest = rack_letters(rack.drop_first());
        assert(rest =~= all.drop_first());
        if rack[0].letter@ == letter {
            assert(all[0] == letter);
        } else {
            if all.contains(letter) {
                let i = choose|i: int| 0 <= i < all.len() && all[i] == letter;
                assert(i > 0);
                assert(rest[i - 1] == letter);
            }
            if rest.contains(letter) {
                let j = choose|j: int| 0 <= j < rest.len() && rest[j] == letter;
                assert(all[j + 1] == letter);
            }
        }
    }
}

proof fn lemma_exchange_counts(rack: Seq<Tile>, letters: Seq<Seq<char>>)
    ensures
        (rack_after_exchange(rack, letters).2 is None) <==> letters.to_multiset().subset_of(rack_letters(rack).to_multiset()),
        rack_after_exchange(rack, letters).2 is None ==> rack_letters(rack_after_exchange(rack, letters).0).to_multiset()
            == rack_letters(rack).to_multiset().sub(letters.to_multiset()),
    decreases letters.len(),
{
    broadcast use vstd::multiset::group_multiset_axioms;
    broadcast use vstd::seq_lib::group_to_multiset_ensures;
    let whole = rack_letters(rack).to_multiset();
    if letters.len() == 0 {
        assert(letters.to_multiset() =~= Multiset::<Seq<char>>::empty());
        assert(whole.sub(Multiset::<Seq<char>>::empty()) =~= whole);
    } else {
        let front = letters.drop_last();
        let x = letters.last();
        lemma_exchange_counts(rack, front);
        assert(letters =~= front.push(x));
        assert(letters.to_multiset() =~= front.to_multiset().insert(x));
        let prev = rack_after_exchange(rack, front);
        if prev.2 is Some {
            assert(!letters.to_multiset().subset_of(whole)) by {
                let v = choose|v: Seq<char>| !(front.to_multiset().count(v) <= whole.count(v));
                assert(letters.to_multiset().count(v) >= front.to_multiset().count(v));
            }
        } else {
            let left = rack_letters(prev.0);
            lemma_position_of_found(prev.0, x);
            lemma_position_of_bounds(prev.0, x);
            let p = position_of(prev.0, x);
            assert(left.to_multiset().count(x) == whole.count(x) - front.to_multiset().count(x));
            if p >= 0 {
                assert(rack_letters(prev.0.remove(p)) =~= left.remove(p));
                assert(left[p] == x);
                assert(left.to_multiset().count(x) > 0);
                assert forall|v: Seq<char>| letters.to_multiset().count(v) <= whole.count(v) by {
                    assert(front.to_multiset().count(v) <= whole.count(v));
                }
                assert(rack_letters(prev.0.remove(p)).to_multiset() =~= whole.sub(letters.to_multiset())) by {
                    assert forall|v: Seq<char>| #[trigger] rack_letters(prev.0.remove(p)).to_multiset().count(v)
                        == whole.sub(letters.to_multiset()).count(v) by {
                        assert(front.to_multiset().count(v) <= whole.count(v));
                        assert(left.to_multiset().count(v) == whole.count(v) - front.to_multiset().count(v));
                    }
                }
            } else {
                assert(!left.contains(x));
                assert(letters.to_multiset().count(x) > whole.count(x));
            }
        }
    }
}

/// How many blanks a move with the letters `played` needs from a rack whose
/// letters are `held`: one for each blank played, and one for each letter
/// played beyond what the rack holds of it.
pub open spec fn blanks_needed(played: Multiset<Seq<char>>, held: Multiset<Seq<char>>) -> nat {
    played.sub(held).len() + played.count(blank_letter())
}

proof fn lemma_move_counts(rack: Seq<Tile>, letters: Seq<Seq<char>>)
    ensures
        ({
            let held = rack_letters(rack).to_multiset();
            let played = letters.to_multiset();
            let out = rack_after_move(rack, letters);
            let left = rack_letters(out.0).to_multiset();
            &&& out.1 is None <==> blanks_needed(played, held) <= held.count(blank_letter())
            &&& out.1 is None ==> left.count(blank_letter()) == held.count(blank_letter()) - blanks_needed(played, held)
            &&& out.1 is None ==> forall|v: Seq<char>| v != blank_letter() ==>
                #[trigger] left.count(v) == if played.count(v) <= held.count(v) { held.count(v) - played.count(v) } else { 0 }
        }),
    decreases letters.len(),
{
    broadcast use vstd::multiset::group_multiset_axioms;
    broadcast use vstd::seq_lib::group_to_multiset_ensures;
    let held = rack_letters(rack).to_multiset();
    let bl = blank_letter();
    if letters.len() == 0 {
        assert(letters.to_multiset() =~= Multiset::<Seq<char>>::empty());
        assert(Multiset::<Seq<char>>::empty().sub(held) =~= Multiset::<Seq<char>>::empty());
    } else {
        let front = letters.drop_last();
        let x = letters.last();
        lemma_move_counts(rack, front);
        assert(letters =~= front.push(x));
        let fp = front.to_multiset();
        let played = letters.to_multiset();
        assert(played =~= fp.insert(x));
        let over = fp.count(x) >= held.count(x);
        if over {
            assert(played.sub(held) =~= fp.sub(held).insert(x));
        } else {
            assert(played.sub(held) =~= fp.sub(held));
        }
        let prev = rack_after_move(rack, front);
        let d0 = blanks_needed(fp, held);
        let d1 = blanks_needed(played, held);
        assert(played.count(bl) == fp.count(bl) + (if x == bl { 1int } else { 0 }));
        assert(d1 == d0 + (if over { 1int } else { 0 }) + (if x == bl { 1int } else { 0 }));
        if prev.1 is Some {
            assert(rack_after_move(rack, letters) == prev);
            assert(d1 > held.count(bl));
        } else {
            let m = prev.0;
            let left = rack_letters(m).to_multiset();
            assert(left.count(bl) == held.count(bl) - d0);
            assert(fp.count(bl) <= d0);
            lemma_position_of_found(m, x);
            lemma_position_of_bounds(m, x);
            lemma_position_of_found(m, bl);
            lemma_position_of_bounds(m, bl);
            let p = position_of(m, x);
            let q = position_of(m, bl);
            if x != bl {
                assert(left.count(x) == if fp.count(x) <= held.count(x) { held.count(x) - fp.count(x) } else { 0 });
            }
            if p >= 0 {
                assert(rack_letters(m.remove(p)) =~= rack_letters(m).remove(p));
                assert(rack_letters(m)[p] == x);
                let nl = rack_letters(m.remove(p)).to_multiset();
                assert(nl =~= left.remove(x));
                assert(left.count(x) > 0);
                assert(!over);
                assert(rack_after_move(rack, letters) == (m.remove(p), None::<Seq<char>>));
                assert forall|v: Seq<char>| v != bl implies #[trigger] nl.count(v)
                    == if played.count(v) <= held.count(v) { held.count(v) - played.count(v) } else { 0 } by {
                    assert(left.count(v) == if fp.count(v) <= held.count(v) { held.count(v) - fp.count(v) } else { 0 });
                }
            } else if q >= 0 {
                assert(x != bl);
                assert(rack_letters(m.remove(q)) =~= rack_letters(m).remove(q));
                assert(rack_letters(m)[q] == bl);
                let nl = rack_letters(m.remove(q)).to_multiset();
                assert(nl =~= left.remove(bl));
                assert(left.count(x) == 0);
                assert(over);
                assert(left.count(bl) > 0);
                assert(rack_after_move(rack, letters) == (m.remove(q), None::<Seq<char>>));
                assert forall|v: Seq<char>| v != bl implies #[trigger] nl.count(v)
                    == if played.count(v) <= held.count(v) { held.count(v) - played.count(v) } else { 0 } by {
                    assert(left.count(v) == if fp.count(v) <= held.count(v) { held.count(v) - fp.count(v) } else { 0 });
                }
            } else {
                assert(left.count(bl) == 0);
                assert(x != bl ==> left.count(x) == 0);
                assert(rack_after_move(rack, letters) == (m, Some(x)));
                assert(d1 > held.count(bl));
            }
        }
    }
}

/// A move's letters come out of the rack exactly when the rack has enough
/// blanks for what it lacks: each blank played, and each letter played
/// beyond what the rack holds of it, takes one blank.
pub proof fn lemma_move_letters_available(rack: Seq<Tile>, letters: Seq<Seq<char>>)
    ensures
        rack_after_move(rack, letters).1 is None <==> blanks_needed(letters.to_multiset(), rack_letters(rack).to_multiset())
            <= rack_letters(rack).to_multiset().count(blank_letter()),
{
    lemma_move_counts(rack, letters);
}

/// An exchange goes through exactly when the rack holds a tile of each
/// letter named, counted with repetition; otherwise it is refused.
pub proof fn lemma_exchange_succeeds_iff(old: Game, letters: Seq<Seq<char>>, new: Game, res: Result<(), String>)
    requires
        old.players@.len() > 0,
        exchange_outcome(old, letters, new, res),
    ensures
        res is Ok <==> letters.to_multiset().subset_of(rack_letters(old.players@[old.turn_index()].rack@).to_multiset()),
{
    lemma_exchange_counts(old.players@[old.turn_index()].rack@, letters);
}

impl Game {
    /// Remove specific tiles from a player's rack.
    pub(crate) fn remove_tiles_from_rack(&mut self, player_idx: usize, letters: &Vec<String>) -> (res: Result<(), String>)
        requires
            player_idx < old(self).players@.len(),
        ensures
            final(self).players@.len() == old(self).players@.len(),
            forall|i: int| 0 <= i < old(self).players@.len() && i != player_idx ==>
                #[trigger] final(self).players@[i] == old(self).players@[i],
            ({
                let p = final(self).players@[player_idx as int];
                let o = old(self).players@[player_idx as int];
                &&& p.id == o.id && p.name == o.name && p.score == o.score && p.ready == o.ready
                &&& p.is_bot == o.is_bot && p.bot_level == o.bot_level
                &&& p.rack@ == rack_after_move(o.rack@, texts(letters@)).0
            }),
            match rack_after_move(old(self).players@[player_idx as int].rack@, texts(letters@)).1 {
                Some(l) => res matches Err(e) && e@ == missing_tile_message(l),
                None => res is Ok,
            },
            final(self).board == old(self).board,
            final(self).tile_bag == old(self).tile_bag,
            final(self).current_turn == old(self).current_turn,
            final(self).phase == old(self).phase,
            final(self).consecutive_passes == old(self).consecutive_passes,
            final(self).dictionary == old(self).dictionary,
            final(self).winner == old(self).winner,
            final(self).tiles_placed_this_turn == old(self).tiles_placed_this_turn,
    {
        let mut rack: Vec<Tile> = Vec::new();
        std::mem::swap(&mut rack, &mut self.players[player_idx].rack);
        let res = take_letters_for_move(&mut rack, letters);
        std::mem::swap(&mut rack, &mut self.players[player_idx].rack);
        res
    }

    /// Exchange tiles from current player's rack: as many new tiles as named
    /// are drawn from the end of the bag, then the named tiles go to the back
    /// of the bag. If a named tile is missing the exchange fails, and the
    /// tiles named before it are gone from the rack without reaching the bag.
    pub fn exchange_tiles(&mut self, letters: &[String]) -> (res: Result<(), String>)
        requires
            old(self).players@.len() > 0,
        ensures
            exchange_outcome(*old(self), slice_texts(letters), *final(self), res),
    {
        let player_idx = self.current_player_index();
        let ghost start = *self;
        let ghost start_rack = self.players@[player_idx as int].rack@;
        let ghost words = slice_texts(letters);
        let mut rack: Vec<Tile> = Vec::new();
        std::mem::swap(&mut rack, &mut self.players[player_idx].rack);
        let mut exchanged: Vec<Tile> = Vec::new();
        let mut i: usize = 0;
        while i < letters.len()
            invariant
                start == *old(self),
                start_rack == start.players@[player_idx as int].rack@,
                start.players@.len() > 0,
                player_idx as int == start.turn_index(),
                self.players@.len() == start.players@.len(),
                forall|j: int| 0 <= j < start.players@.len() && j != player_idx ==>
                    #[trigger] self.players@[j] == start.players@[j],
                self.players@[player_idx as int].id == start.players@[player_idx as int].id,
                self.players@[player_idx as int].name == start.players@[player_idx as int].name,
                self.players@[player_idx as int].score == start.players@[player_idx as int].score,
                self.players@[player_idx as int].ready == start.players@[player_idx as int].ready,
                self.players@[player_idx as int].is_bot == start.players@[player_idx as int].is_bot,
                self.players@[player_idx as int].bot_level == start.players@[player_idx as int].bot_level,
                self.board == start.board,
                self.tile_bag == start.tile_bag,
                self.current_turn == start.current_turn,
                self.phase == start.phase,
                self.consecutive_passes == start.consecutive_passes,
                self.dictionary == start.dictionary,
                self.winner == start.winner,
                self.tiles_placed_this_turn == start.tiles_placed_this_turn,
                0 <= i <= letters@.len(),
                words == slice_texts(letters),
                rack@ == rack_after_exchange(start_rack, words.take(i as int)).0,
                exchanged@ == rack_after_exchange(start_rack, words.take(i as int)).1,
                rack_after_exchange(start_rack, words.take(i as int)).2 is None,
            decreases letters@.len() - i,
        {
            assert(words.take(i + 1).drop_last() =~= words.take(i as int));
            assert(words.take(i + 1).last() == letters@[i as int]@);
            proof { lemma_position_of_bounds(rack@, letters@[i as int]@); }
            match find_letter(&rack, letters[i].as_str()) {
                Some(p) => {
                    let t = rack.remove(p);
                    exchanged.push(t);
                },
                None => {
                    assert(rack_after_exchange(start_rack, words.take(i + 1)) == (rack@, exchanged@, Some(letters@[i as int]@)));
                    proof { lemma_exchange_stops(start_rack, words, i as int + 1); }
                    assert(words.take(letters@.len() as int) =~= words);
                    std::mem::swap(&mut rack, &mut self.players[player_idx].rack);
                    let mut msg = "Tile '".to_owned();
                    msg.append(letters[i].as_str());
                    msg.append("' not in rack");
                    return Err(msg);
                },
            }
            i = i + 1;
        }
        assert(words.take(letters@.len() as int) =~= words);
        // Draw new tiles, then put the exchanged ones in the bag
        let drawn = self.draw_tiles(letters.len());
        let mut drawn = drawn;
        rack.append(&mut drawn);
        self.tile_bag.append(&mut exchanged);
        std::mem::swap(&mut rack, &mut self.players[player_idx].rack);
        Ok(())
    }
}

} // verus!
