//! The bot opponents of single-player games: their profiles, and the search
//! for a move at each difficulty level.

use vstd::prelude::*;
use vstd::multiset::Multiset;
use crate::board::{Board, BoardModel, Direction};
use crate::game::Game;
use crate::play::{play_in_range, play_succeeds, play_score};
use crate::placement::covers_center;
use crate::protocol::TilePlacement;
use crate::tiles::Tile;
use crate::rack::texts;
use crate::random::{choose_from, shuffle_vec};
use crate::text::{byte_len, char_width, lemma_bytes_cover_chars, lemma_encode_prefix_step, lowercase, push_char, same_text, to_lowercase};
use vstd::utf8::encode_utf8;

verus! {

/// Action returned by the bot.
#[derive(Debug)]
pub enum BotMoveAction {
    PlaceTiles { placements: Vec<TilePlacement> },
    ExchangeTiles { letters: Vec<String> },
    PassTurn,
}

/// A bot opponent: its name, rating, role and chat lines.
pub struct BotProfile {
    pub name: &'static str,
    pub rating: u32,
    pub role: &'static str,
    pub greetings: &'static [&'static str],
    pub high_score_phrases: &'static [&'static str],
    pub low_score_phrases: &'static [&'static str],
}

/// A profile seen as the characters of its texts.
#[verifier::ext_equal]
pub struct ProfileView {
    pub name: Seq<char>,
    pub rating: u32,
    pub role: Seq<char>,
    pub greetings: Seq<Seq<char>>,
    pub high_score_phrases: Seq<Seq<char>>,
    pub low_score_phrases: Seq<Seq<char>>,
}

/// The characters of each text of a list.
pub open spec fn phrase_views(s: Seq<&'static str>) -> Seq<Seq<char>> {
    s.map_values(|p: &'static str| p@)
}

impl View for BotProfile {
    type V = ProfileView;

    open spec fn view(&self) -> ProfileView {
        ProfileView {
            name: self.name@,
            rating: self.rating,
            role: self.role@,
            greetings: phrase_views(self.greetings@),
            high_score_phrases: phrase_views(self.high_score_phrases@),
            low_score_phrases: phrase_views(self.low_score_phrases@),
        }
    }
}

/// The seven bot opponents, from the beginner to the grandmaster.
pub open spec fn profile_table() -> Seq<ProfileView> {
    seq![
        ProfileView {
            name: "Curlew (Okolo)"@,
            rating: 600,
            role: "Symbol of the Founding Island (Okoloama)"@,
            greetings: seq!["Welcome to Okoloama! Let's play some words together! 🦛"@, "Hello! Let's have a friendly game! 🐦"@],
            high_score_phrases: seq!["Wow, that was a good one!"@, "Look at that word! Nice! 🎉"@],
            low_score_phrases: seq!["Just playing simple words."@, "It's all about having fun! 😊"@],
        },
        ProfileView {
            name: "Ottam tuwo"@,
            rating: 750,
            role: "Popular masquerade"@,
            greetings: seq!["Always keep your eyes up. 🎭"@, "Let's raise the roof! 🏠"@],
            high_score_phrases: seq!["Unpredictable, isn't it?"@, "Unexpected overlays! 🎭"@],
            low_score_phrases: seq!["Keep watching the board."@, "Let's see what you do next. 👀"@],
        },
        ProfileView {
            name: "King Jaja"@,
            rating: 1200,
            role: "Legendary Merchant Monarch & House Leader"@,
            greetings: seq!["Every turn is a trade deal. I intend to walk away with the profit. 👑"@, "Let's trade some tiles on the board."@],
            high_score_phrases: seq!["A master tactician always secures the profit! 💰"@, "Pure economic efficiency! 📈"@],
            low_score_phrases: seq!["Resource management is key."@, "A minor trade, but strategic."@],
        },
        ProfileView {
            name: "Queen Kambasa"@,
            rating: 1350,
            role: "First and Only Female Reigning Monarch of Grand Bonny"@,
            greetings: seq!["Do not underestimate a ruler who knows how to command the board. 👑"@, "A decisive monarch is here."@],
            high_score_phrases: seq!["Targeting the multipliers is standard strategy for a queen. 🎯"@, "Bold and sharp! ⚡"@],
            low_score_phrases: seq!["Securing the territory."@, "A calculated maneuver."@],
        },
        ProfileView {
            name: "Alagbarigha"@,
            rating: 1700,
            role: "High Priest & Founder (Okoloamakoromabo)"@,
            greetings: seq!["I see pathways on this board that you have yet to divine. 🔮"@, "Traditional wisdom will guide my tiles."@],
            high_score_phrases: seq!["Foresight leads to great alignments."@, "The spiritual path is fruitful! ✨"@],
            low_score_phrases: seq!["Patience. Every tile has its place."@, "Defending the closed board."@],
        },
        ProfileView {
            name: "King Perekule I"@,
            rating: 1850,
            role: "Founder of the Perekule Dynasty & Economic Transformer"@,
            greetings: seq!["Structure and authority will always triumph over chaotic tiles. 👑"@, "Let us establish some order on this board."@],
            high_score_phrases: seq!["Structure brings massive scoring! 🏛️"@, "A grand dynasty of words!"@],
            low_score_phrases: seq!["Consolidating power."@, "Organizing the letters."@],
        },
        ProfileView {
            name: "Ikuba"@,
            rating: 2200,
            role: "Historical Deified Guardian Spirit of Grand Bonny"@,
            greetings: seq!["You challenge the sacred guardian of the realm? Prove your mastery! 🐉"@, "Prepare to face the ultimate spirit. ⚡"@],
            high_score_phrases: seq!["Parallel placement mastery! You cannot match a deity. 🐉"@, "Perfect tile efficiency!"@],
            low_score_phrases: seq!["Analyzing the endgame."@, "A tactical transition."@],
        },
    ]
}

/// The profiles of the seven bots (`profile_table`).
pub fn get_bot_profiles() -> (res: Vec<BotProfile>)
    ensures
        res@.map_values(|p: BotProfile| p@) == profile_table(),
{
    let profiles = vec![
        BotProfile {
            name: "Curlew (Okolo)",
            rating: 600,
            role: "Symbol of the Founding Island (Okoloama)",
            greetings: &["Welcome to Okoloama! Let's play some words together! 🦛", "Hello! Let's have a friendly game! 🐦"],
            high_score_phrases: &["Wow, that was a good one!", "Look at that word! Nice! 🎉"],
            low_score_phrases: &["Just playing simple words.", "It's all about having fun! 😊"],
        },
        BotProfile {
            name: "Ottam tuwo",
            rating: 750,
            role: "Popular masquerade",
            greetings: &["Always keep your eyes up. 🎭", "Let's raise the roof! 🏠"],
            high_score_phrases: &["Unpredictable, isn't it?", "Unexpected overlays! 🎭"],
            low_score_phrases: &["Keep watching the board.", "Let's see what you do next. 👀"],
        },
        BotProfile {
            name: "King Jaja",
            rating: 1200,
            role: "Legendary Merchant Monarch & House Leader",
            greetings: &["Every turn is a trade deal. I intend to walk away with the profit. 👑", "Let's trade some tiles on the board."],
            high_score_phrases: &["A master tactician always secures the profit! 💰", "Pure economic efficiency! 📈"],
            low_score_phrases: &["Resource management is key.", "A minor trade, but strategic."],
        },
        BotProfile {
            name: "Queen Kambasa",
            rating: 1350,
            role: "First and Only Female Reigning Monarch of Grand Bonny",
            greetings: &["Do not underestimate a ruler who knows how to command the board. 👑", "A decisive monarch is here."],
            high_score_phrases: &["Targeting the multipliers is standard strategy for a queen. 🎯", "Bold and sharp! ⚡"],
            low_score_phrases: &["Securing the territory.", "A calculated maneuver."],
        },
        BotProfile {
            name: "Alagbarigha",
            rating: 1700,
            role: "High Priest & Founder (Okoloamakoromabo)",
            greetings: &["I see pathways on this board that you have yet to divine. 🔮", "Traditional wisdom will guide my tiles."],
            high_score_phrases: &["Foresight leads to great alignments.", "The spiritual path is fruitful! ✨"],
            low_score_phrases: &["Patience. Every tile has its place.", "Defending the closed board."],
        },
        BotProfile {
            name: "King Perekule I",
            rating: 1850,
            role: "Founder of the Perekule Dynasty & Economic Transformer",
            greetings: &["Structure and authority will always triumph over chaotic tiles. 👑", "Let us establish some order on this board."],
            high_score_phrases: &["Structure brings massive scoring! 🏛️", "A grand dynasty of words!"],
            low_score_phrases: &["Consolidating power.", "Organizing the letters."],
        },
        BotProfile {
            name: "Ikuba",
            rating: 2200,
            role: "Historical Deified Guardian Spirit of Grand Bonny",
            greetings: &["You challenge the sacred guardian of the realm? Prove your mastery! 🐉", "Prepare to face the ultimate spirit. ⚡"],
            high_score_phrases: &["Parallel placement mastery! You cannot match a deity. 🐉", "Perfect tile efficiency!"],
            low_score_phrases: &["Analyzing the endgame.", "A tactical transition."],
        },
    ];
    proof {
        let views = profiles@.map_values(|p: BotProfile| p@);
        assert(views[0] =~= profile_table()[0]);
        assert(views[1] =~= profile_table()[1]);
        assert(views[2] =~= profile_table()[2]);
        assert(views[3] =~= profile_table()[3]);
        assert(views[4] =~= profile_table()[4]);
        assert(views[5] =~= profile_table()[5]);
        assert(views[6] =~= profile_table()[6]);
        assert(views =~= profile_table());
    }
    profiles
}

/// The key by which the bot compares a letter: the lowercase form of the
/// one-character string.
pub open spec fn char_key(c: char) -> Seq<char> {
    lowercase(seq![c])
}

/// The letters a rack offers, lowercased; blank tiles (`" "`) are counted apart.
pub open spec fn rack_pool(rack: Seq<Seq<char>>) -> Multiset<Seq<char>>
    decreases rack.len(),
{
    if rack.len() == 0 {
        Multiset::empty()
    } else if rack.last() == " "@ {
        rack_pool(rack.drop_last())
    } else {
        rack_pool(rack.drop_last()).insert(lowercase(rack.last()))
    }
}

/// The number of blank tiles of a rack.
pub open spec fn blank_count(rack: Seq<Seq<char>>) -> nat
    decreases rack.len(),
{
    if rack.len() == 0 {
        0
    } else {
        blank_count(rack.drop_last()) + if rack.last() == " "@ { 1nat } else { 0nat }
    }
}

/// Whether the letters of `word`, taken in order, can each be covered: by a
/// letter left in `pool` first, else by a letter on the board, else by a blank.
pub open spec fn spell_from(word: Seq<char>, pool: Multiset<Seq<char>>, board: Set<Seq<char>>, blanks: nat) -> bool
    decreases word.len(),
{
    if word.len() == 0 {
        true
    } else {
        let l = char_key(word[0]);
        if pool.count(l) > 0 {
            spell_from(word.drop_first(), pool.remove(l), board, blanks)
        } else if board.contains(l) {
            spell_from(word.drop_first(), pool, board, blanks)
        } else if blanks > 0 {
            spell_from(word.drop_first(), pool, board, (blanks - 1) as nat)
        } else {
            false
        }
    }
}

/// Whether `word` can be spelled from the rack, hooking letters from the board.
pub open spec fn spellable(word: Seq<char>, rack: Seq<Seq<char>>, board: Set<Seq<char>>) -> bool {
    spell_from(word, rack_pool(rack), board, blank_count(rack))
}

/// The one-character string of `c`.
fn char_text(c: char) -> (res: String)
    ensures
        res@ == seq![c],
{
    let mut s = String::new();
    push_char(&mut s, c);
    assert(s@ =~= seq![c]);
    s
}

/// The position of the first string of `v` equal to `s`.
fn position_of_text(v: &Vec<String>, s: &String) -> (res: Option<usize>)
    ensures
        res matches Some(j) ==> j < v@.len() && v@[j as int]@ == s@,
        res is None ==> !texts(v@).contains(s@),
{
    let mut j: usize = 0;
    while j < v.len()
        invariant
            0 <= j <= v@.len(),
            forall|k: int| 0 <= k < j ==> v@[k]@ != s@,
        decreases v@.len() - j,
    {
        if v[j] == *s {
            return Some(j);
        }
        j = j + 1;
    }
    proof {
        if texts(v@).contains(s@) {
            let k = choose|k: int| 0 <= k < texts(v@).len() && texts(v@)[k] == s@;
            assert(v@[k]@ == s@);
        }
    }
    None
}

/// Whether a word can be spelled with the given rack and board letters.
fn can_spell(word: &str, rack: &[String], board_letters: &Vec<String>) -> (res: bool)
    ensures
        res == spellable(word@, texts(rack@), texts(board_letters@).to_set()),
{
    broadcast use vstd::seq_lib::group_to_multiset_ensures;
    let ghost letters = texts(rack@);
    let ghost board = texts(board_letters@).to_set();
    let mut pool: Vec<String> = Vec::new();
    let mut blanks: usize = 0;
    let mut i: usize = 0;
    while i < rack.len()
        invariant
            0 <= i <= rack@.len(),
            letters == texts(rack@),
            texts(pool@).to_multiset() == rack_pool(letters.take(i as int)),
            blanks as nat == blank_count(letters.take(i as int)),
            blanks <= i,
        decreases rack@.len() - i,
    {
        assert(letters.take(i + 1).drop_last() =~= letters.take(i as int));
        if same_text(rack[i].as_str(), " ") {
            blanks = blanks + 1;
        } else {
            let l = to_lowercase(rack[i].as_str());
            let ghost before = pool@;
            pool.push(l);
            assert(texts(pool@) =~= texts(before).push(l@));
            proof {
                vstd::seq_lib::to_multiset_build(texts(before), l@);
            }
        }
        i = i + 1;
    }
    assert(letters.take(rack@.len() as int) =~= letters);
    let n = word.unicode_len();
    let mut k: usize = 0;
    assert(word@.skip(0) =~= word@);
    while k < n
        invariant
            n == word@.len(),
            0 <= k <= n,
            board == texts(board_letters@).to_set(),
            letters == texts(rack@),
            spellable(word@, letters, board) == spell_from(word@.skip(k as int), texts(pool@).to_multiset(), board, blanks as nat),
        decreases n - k,
    {
        let c = word.get_char(k);
        let ghost rest = word@.skip(k as int);
        assert(rest[0] == c);
        assert(rest.drop_first() =~= word@.skip(k + 1));
        let key = to_lowercase(char_text(c).as_str());
        let ghost before = pool@;
        let ghost blanks_before = blanks as nat;
        assert(key@ == char_key(rest[0]));
        assert(rest.len() > 0);
        match position_of_text(&pool, &key) {
            Some(j) => {
                pool.remove(j);
                assert(texts(pool@) =~= texts(before).remove(j as int));
                proof {
                    vstd::seq_lib::to_multiset_remove(texts(before), j as int);
                    vstd::seq_lib::to_multiset_contains(texts(before), key@);
                }
                assert(texts(before)[j as int] == key@);
                assert(texts(before).contains(key@));
            },
            None => {
                proof {
                    vstd::seq_lib::to_multiset_contains(texts(before), key@);
                }
                match position_of_text(board_letters, &key) {
                    Some(b) => {
                        assert(texts(board_letters@)[b as int] == key@);
                        assert(board.contains(key@));
                    },
                    None => {
                        assert(!board.contains(key@));
                        if blanks > 0 {
                            blanks = blanks - 1;
                        } else {
                            assert(!spell_from(rest, texts(before).to_multiset(), board, blanks_before));
                            return false;
                        }
                    },
                }
            },
        }
        k = k + 1;
    }
    true
}

/// The letters on the board, lowercased.
pub open spec fn board_letter_set(b: BoardModel) -> Set<Seq<char>> {
    Set::new(|l: Seq<char>| exists|r: int, c: int| #[trigger] b.on_board(r, c) && b.cell(r, c).tile is Some && l == lowercase(b.cell(r, c).tile.unwrap()))
}

/// The letters on the board, lowercased, as a list (one entry per tile).
fn board_letters(board: &Board) -> (res: Vec<String>)
    requires
        board.wf(),
    ensures
        texts(res@).to_set() == board_letter_set(board.model()),
{
    let ghost b = board.model();
    let size = board.size;
    let mut letters: Vec<String> = Vec::new();
    let mut r: usize = 0;
    while r < size
        invariant
            board.wf(),
            b == board.model(),
            size == board.size,
            0 <= r <= size,
            forall|k: int| 0 <= k < letters@.len() ==> board_letter_set(b).contains(#[trigger] letters@[k]@),
            forall|rr: int, cc: int| 0 <= rr < r && 0 <= cc < size && (#[trigger] b.cell(rr, cc)).tile is Some
                ==> texts(letters@).contains(lowercase(b.cell(rr, cc).tile.unwrap())),
        decreases size - r,
    {
        let mut c: usize = 0;
        while c < size
            invariant
                board.wf(),
                b == board.model(),
                size == board.size,
                0 <= r < size,
                0 <= c <= size,
                forall|k: int| 0 <= k < letters@.len() ==> board_letter_set(b).contains(#[trigger] letters@[k]@),
                forall|rr: int, cc: int| 0 <= rr < r && 0 <= cc < size && (#[trigger] b.cell(rr, cc)).tile is Some
                    ==> texts(letters@).contains(lowercase(b.cell(rr, cc).tile.unwrap())),
                forall|cc: int| 0 <= cc < c && (#[trigger] b.cell(r as int, cc)).tile is Some
                    ==> texts(letters@).contains(lowercase(b.cell(r as int, cc).tile.unwrap())),
            decreases size - c,
        {
            if let Some(t) = &board.squares[r][c].tile {
                let l = to_lowercase(t.as_str());
                let ghost before = letters@;
                assert(b.on_board(r as int, c as int) && b.cell(r as int, c as int).tile == Some(t@));
                assert(board_letter_set(b).contains(l@));
                letters.push(l);
                assert(texts(letters@) =~= texts(before).push(l@));
                assert(texts(letters@)[before.len() as int] == l@);
                assert forall|y: Seq<char>| texts(before).contains(y) implies texts(letters@).contains(y) by {
                    let k = choose|k: int| 0 <= k < texts(before).len() && texts(before)[k] == y;
                    assert(texts(letters@)[k] == y);
                }
            }
            c = c + 1;
        }
        r = r + 1;
    }
    assert forall|l: Seq<char>| #[trigger] texts(letters@).to_set().contains(l) <==> board_letter_set(b).contains(l) by {
        if texts(letters@).contains(l) {
            let k = choose|k: int| 0 <= k < texts(letters@).len() && texts(letters@)[k] == l;
            assert(letters@[k]@ == l);
        }
        if board_letter_set(b).contains(l) {
            let (rr, cc) = choose|rr: int, cc: int| #[trigger] b.on_board(rr, cc) && b.cell(rr, cc).tile is Some && l == lowercase(b.cell(rr, cc).tile.unwrap());
            assert(b.cell(rr, cc).tile is Some);
        }
    }
    assert(texts(letters@).to_set() =~= board_letter_set(b));
    letters
}

/// The longest word, in bytes, that a bot of the given level looks for.
pub open spec fn max_word_len(level: Seq<char>) -> usize {
    if level == "Curlew (Okolo)"@ {
        3
    } else if level == "Ottam tuwo"@ {
        5
    } else if level == "King Jaja"@ {
        6
    } else if level == "Queen Kambasa"@ {
        7
    } else if level == "Alagbarigha"@ {
        8
    } else {
        10
    }
}

/// The longest word a bot of the given level looks for (`max_word_len`).
fn max_word_len_of(level: &str) -> (n: usize)
    ensures
        n == max_word_len(level@),
{
    if same_text(level, "Curlew (Okolo)") {
        3
    } else if same_text(level, "Ottam tuwo") {
        5
    } else if same_text(level, "King Jaja") {
        6
    } else if same_text(level, "Queen Kambasa") {
        7
    } else if same_text(level, "Alagbarigha") {
        8
    } else {
        10
    }
}

/// The words, in dictionary order, of 2 to `max` bytes that can be spelled
/// from the rack and the board letters (any such word when the board is empty).
pub open spec fn word_candidates(words: Seq<String>, max: usize, rack: Seq<Seq<char>>, board: Set<Seq<char>>, filled: bool) -> Seq<String>
    decreases words.len(),
{
    if words.len() == 0 {
        Seq::empty()
    } else {
        let w = words.last();
        let rest = word_candidates(words.drop_last(), max, rack, board, filled);
        if 2 <= byte_len(w@) <= max && (spellable(w@, rack, board) || !filled) {
            rest.push(w)
        } else {
            rest
        }
    }
}

/// The dictionary words that fit the length and the letters at hand.
fn candidate_words(words: &Vec<String>, max: usize, rack: &[String], letters: &Vec<String>, filled: bool) -> (res: Vec<String>)
    ensures
        res@ == word_candidates(words@, max, texts(rack@), texts(letters@).to_set(), filled),
{
    let ghost board = texts(letters@).to_set();
    let mut res: Vec<String> = Vec::new();
    let mut i: usize = 0;
    while i < words.len()
        invariant
            0 <= i <= words@.len(),
            board == texts(letters@).to_set(),
            res@ == word_candidates(words@.take(i as int), max, texts(rack@), board, filled),
        decreases words@.len() - i,
    {
        assert(words@.take(i + 1).drop_last() =~= words@.take(i as int));
        let word = &words[i];
        let len = word.as_str().len();
        if len >= 2 && len <= max {
            if can_spell(word.as_str(), rack, letters) || !filled {
                res.push(word.clone());
            }
        }
        i = i + 1;
    }
    assert(words@.take(words@.len() as int) =~= words@);
    res
}

/// A placement seen as its square and the characters of its letter.
pub open spec fn placement_views(ps: Seq<TilePlacement>) -> Seq<(usize, usize, Seq<char>)> {
    ps.map_values(|p: TilePlacement| (p.row, p.col, p.letter@))
}

/// The square `i` steps from (row, col) along `dir`.
pub open spec fn step(dir: Direction, row: int, col: int, i: int) -> (int, int) {
    if dir == Direction::Across { (row, col + i) } else { (row + i, col) }
}

/// The tiles of `w`, one per character, laid from (row, col) along `dir`.
pub open spec fn laid(w: Seq<char>, dir: Direction, row: int, col: int) -> Seq<(usize, usize, Seq<char>)> {
    Seq::new(w.len(), |i: int| (step(dir, row, col, i).0 as usize, step(dir, row, col, i).1 as usize, seq![w[i]]))
}

/// Lays the characters of `w` from (row, col) along `dir`, one tile each.
fn lay_word(w: &str, dir: Direction, row: usize, col: usize) -> (res: Vec<TilePlacement>)
    requires
        row + w@.len() <= 15,
        col + w@.len() <= 15,
    ensures
        placement_views(res@) == laid(w@, dir, row as int, col as int),
{
    let n = w.unicode_len();
    let mut res: Vec<TilePlacement> = Vec::new();
    let mut i: usize = 0;
    while i < n
        invariant
            n == w@.len(),
            row + n <= 15,
            col + n <= 15,
            0 <= i <= n,
            placement_views(res@) == laid(w@, dir, row as int, col as int).take(i as int),
        decreases n - i,
    {
        let c = w.get_char(i);
        let letter = char_text(c);
        let p = if dir == Direction::Across {
            TilePlacement { row, col: col + i, letter }
        } else {
            TilePlacement { row: row + i, col, letter }
        };
        let ghost before = res@;
        res.push(p);
        assert(placement_views(res@) =~= placement_views(before).push((p.row, p.col, p.letter@)));
        assert(laid(w@, dir, row as int, col as int).take(i + 1) =~= laid(w@, dir, row as int, col as int).take(i as int).push((p.row, p.col, p.letter@)));
        i = i + 1;
    }
    assert(laid(w@, dir, row as int, col as int).take(n as int) =~= laid(w@, dir, row as int, col as int));
    res
}

/// The opening moves tried for a word of `len` bytes, across and then down
/// through the centre row and column, for the first `k` start columns from
/// `8 - len` on.
pub open spec fn opening_tries_upto(w: Seq<char>, len: int, k: int) -> Seq<Seq<(usize, usize, Seq<char>)>>
    decreases k,
{
    if k <= 0 {
        Seq::empty()
    } else {
        let start = 8 - len + (k - 1);
        let prev = opening_tries_upto(w, len, k - 1);
        if start + len <= 15 {
            prev.push(laid(w, Direction::Across, 7, start)).push(laid(w, Direction::Down, start, 7))
        } else {
            prev
        }
    }
}

/// The opening moves tried for a word of `len` bytes: each start from
/// `8 - len` to 7; none for a word of more than eight bytes, whose first
/// start would lie before the left edge.
pub open spec fn opening_tries(w: Seq<char>) -> Seq<Seq<(usize, usize, Seq<char>)>> {
    if byte_len(w) <= 8 {
        opening_tries_upto(w, byte_len(w) as int, byte_len(w) as int)
    } else {
        Seq::empty()
    }
}

/// The placements of a list of tries.
pub open spec fn try_views(tries: Seq<Vec<TilePlacement>>) -> Seq<Seq<(usize, usize, Seq<char>)>> {
    tries.map_values(|t: Vec<TilePlacement>| placement_views(t@))
}

/// The opening moves for one word of at least 2 bytes.
fn opening_tries_of(w: &str) -> (res: Vec<Vec<TilePlacement>>)
    requires
        2 <= byte_len(w@),
    ensures
        try_views(res@) == opening_tries(w@),
{
    let len = w.len();
    if len > 8 {
        let none: Vec<Vec<TilePlacement>> = Vec::new();
        assert(try_views(none@) =~= Seq::<Seq<(usize, usize, Seq<char>)>>::empty());
        return none;
    }
    let bytes = w.as_bytes().len();
    proof {
        lemma_bytes_cover_chars(w@);
    }
    let mut res: Vec<Vec<TilePlacement>> = Vec::new();
    let mut start: usize = 8 - len;
    while start <= 7
        invariant
            len == byte_len(w@),
            bytes == encode_utf8(w@).len(),
            len == bytes,
            w@.len() <= len,
            2 <= len <= 8,
            8 - len <= start <= 8,
            try_views(res@) == opening_tries_upto(w@, len as int, start - (8 - len)),
        decreases 8 - start,
    {
        let ghost k = start - (8 - len);
        if start + len <= 15 {
            let across = lay_word(w, Direction::Across, 7, start);
            let down = lay_word(w, Direction::Down, start, 7);
            let ghost before = res@;
            res.push(across);
            res.push(down);
            assert(try_views(res@) =~= try_views(before).push(placement_views(across@)).push(placement_views(down@)));
        }
        start = start + 1;
    }
    res
}

/// `w` laid along `dir` from (row, col) over the board, for its first `k`
/// characters: the new tiles, or `None` when a square on the way holds a
/// different letter.
pub open spec fn fit_word(b: BoardModel, w: Seq<char>, dir: Direction, row: int, col: int, k: int) -> Option<Seq<(usize, usize, Seq<char>)>>
    decreases k,
{
    if k <= 0 {
        Some(Seq::empty())
    } else {
        match fit_word(b, w, dir, row, col, k - 1) {
            None => None,
            Some(prev) => {
                let sq = step(dir, row, col, k - 1);
                match b.cell(sq.0, sq.1).tile {
                    Some(t) => if lowercase(t) == char_key(w[k - 1]) { Some(prev) } else { None },
                    None => Some(prev.push((sq.0 as usize, sq.1 as usize, seq![w[k - 1]]))),
                }
            },
        }
    }
}

/// The move tried from the start square (row, col) along `dir` for a word of
/// `len` bytes: the new tiles, when the word stays on the board, agrees with
/// the letters already there and places at least one tile.
pub open spec fn try_from(b: BoardModel, w: Seq<char>, len: int, dir: Direction, row: int, col: int) -> Seq<Seq<(usize, usize, Seq<char>)>> {
    let fits = if dir == Direction::Across { col >= 0 && col + len <= 15 } else { row >= 0 && row + len <= 15 };
    if fits {
        match fit_word(b, w, dir, row, col, w.len() as int) {
            Some(p) => if p.len() > 0 { seq![p] } else { Seq::empty() },
            None => Seq::empty(),
        }
    } else {
        Seq::empty()
    }
}

/// The moves tried for `w` through the anchor (r, c) holding the letter `e`:
/// for each of the first `k` characters of `w` that matches `e`, the word
/// placed across and then down so that this character, counted by its byte
/// offset, lands on the anchor.
pub open spec fn word_tries(b: BoardModel, w: Seq<char>, r: int, c: int, e: Seq<char>, k: int) -> Seq<Seq<(usize, usize, Seq<char>)>>
    decreases k,
{
    if k <= 0 {
        Seq::empty()
    } else {
        let prev = word_tries(b, w, r, c, e, k - 1);
        if char_key(w[k - 1]) == e {
            let idx = encode_utf8(w.take(k - 1)).len() as int;
            let len = byte_len(w) as int;
            prev + try_from(b, w, len, Direction::Across, r, c - idx) + try_from(b, w, len, Direction::Down, r - idx, c)
        } else {
            prev
        }
    }
}

/// The moves tried through the anchor (r, c), word by word.
pub open spec fn anchor_tries(b: BoardModel, words: Seq<String>, r: int, c: int) -> Seq<Seq<(usize, usize, Seq<char>)>>
    decreases words.len(),
{
    if words.len() == 0 {
        Seq::empty()
    } else {
        let w = words.last()@;
        anchor_tries(b, words.drop_last(), r, c) + word_tries(b, w, r, c, lowercase(b.cell(r, c).tile.unwrap()), w.len() as int)
    }
}

/// Lays `w` along `dir` from (row, col) over the board (`fit_word`).
fn fit_word_on(board: &Board, w: &str, dir: Direction, row: usize, col: usize) -> (res: Option<Vec<TilePlacement>>)
    requires
        board.wf(),
        board.size == 15,
        dir == Direction::Across ==> row < 15 && col + w@.len() <= 15,
        dir == Direction::Down ==> col < 15 && row + w@.len() <= 15,
    ensures
        res matches Some(p) ==> fit_word(board.model(), w@, dir, row as int, col as int, w@.len() as int) == Some(placement_views(p@)),
        res is None ==> fit_word(board.model(), w@, dir, row as int, col as int, w@.len() as int) is None,
{
    let ghost b = board.model();
    let n = w.unicode_len();
    let mut res: Vec<TilePlacement> = Vec::new();
    let mut i: usize = 0;
    while i < n
        invariant
            board.wf(),
            board.size == 15,
            b == board.model(),
            n == w@.len(),
            dir == Direction::Across ==> row < 15 && col + n <= 15,
            dir == Direction::Down ==> col < 15 && row + n <= 15,
            0 <= i <= n,
            fit_word(b, w@, dir, row as int, col as int, i as int) == Some(placement_views(res@)),
        decreases n - i,
    {
        let ch = w.get_char(i);
        let (r, c) = if dir == Direction::Across { (row, col + i) } else { (row + i, col) };
        assert((r as int, c as int) == step(dir, row as int, col as int, i as int));
        match &board.squares[r][c].tile {
            Some(t) => {
                let lt = to_lowercase(t.as_str());
                let lc = to_lowercase(char_text(ch).as_str());
                if lt != lc {
                    proof {
                        lemma_fit_stays_none(b, w@, dir, row as int, col as int, i + 1, n as int);
                    }
                    return None;
                }
            },
            None => {
                let letter = char_text(ch);
                let ghost before = res@;
                res.push(TilePlacement { row: r, col: c, letter });
                assert(placement_views(res@) =~= placement_views(before).push((r, c, seq![ch])));
            },
        }
        i = i + 1;
    }
    Some(res)
}

/// Adds the move tried from (row, col) along `dir` to `tries` (`try_from`).
fn push_try_from(tries: &mut Vec<Vec<TilePlacement>>, board: &Board, w: &str, len: usize, dir: Direction, row: usize, col: usize)
    requires
        board.wf(),
        board.size == 15,
        w@.len() <= len <= 10,
        row < 15,
        col < 15,
    ensures
        try_views(final(tries)@) == try_views(old(tries)@) + try_from(board.model(), w@, len as int, dir, row as int, col as int),
{
    let fits = if dir == Direction::Across { col + len <= 15 } else { row + len <= 15 };
    let ghost before = tries@;
    if fits {
        match fit_word_on(board, w, dir, row, col) {
            Some(p) => {
                if p.len() > 0 {
                    let ghost pv = placement_views(p@);
                    tries.push(p);
                    assert(try_views(tries@) =~= try_views(before) + seq![pv]);
                } else {
                    assert(try_views(tries@) =~= try_views(before) + Seq::<Seq<(usize, usize, Seq<char>)>>::empty());
                }
            },
            None => {
                assert(try_views(tries@) =~= try_views(before) + Seq::<Seq<(usize, usize, Seq<char>)>>::empty());
            },
        }
    } else {
        assert(try_views(tries@) =~= try_views(before) + Seq::<Seq<(usize, usize, Seq<char>)>>::empty());
    }
}

/// Adds the moves tried for `w` through the anchor (r, c) holding the
/// lowercase letter `e` (`word_tries`).
fn push_word_tries(tries: &mut Vec<Vec<TilePlacement>>, board: &Board, w: &str, r: usize, c: usize, e: &String)
    requires
        board.wf(),
        board.size == 15,
        r < 15,
        c < 15,
        byte_len(w@) <= 10,
    ensures
        try_views(final(tries)@) == try_views(old(tries)@) + word_tries(board.model(), w@, r as int, c as int, e@, w@.len() as int),
{
    let ghost b = board.model();
    let len = w.len();
    let bytes = w.as_bytes().len();
    proof {
        lemma_bytes_cover_chars(w@);
    }
    let n = w.unicode_len();
    let mut offset: usize = 0;
    let mut j: usize = 0;
    assert(w@.take(0) =~= Seq::<char>::empty());
    assert(encode_utf8(Seq::<char>::empty()) =~= Seq::<u8>::empty());
    while j < n
        invariant
            board.wf(),
            board.size == 15,
            b == board.model(),
            r < 15,
            c < 15,
            n == w@.len(),
            len == byte_len(w@),
            bytes == encode_utf8(w@).len(),
            len == bytes,
            n <= len <= 10,
            0 <= j <= n,
            offset == encode_utf8(w@.take(j as int)).len(),
            offset <= len,
            try_views(tries@) == try_views(old(tries)@) + word_tries(b, w@, r as int, c as int, e@, j as int),
        decreases n - j,
    {
        let ch = w.get_char(j);
        proof {
            lemma_encode_prefix_step(w@, j as int);
        }
        let key = to_lowercase(char_text(ch).as_str());
        let ghost before = try_views(tries@);
        if key == *e {
            let ghost mid0 = try_views(tries@);
            if c >= offset {
                push_try_from(tries, board, w, len, Direction::Across, r, c - offset);
            } else {
                assert(try_views(tries@) =~= mid0 + try_from(b, w@, len as int, Direction::Across, r as int, c - offset));
            }
            let ghost mid1 = try_views(tries@);
            if r >= offset {
                push_try_from(tries, board, w, len, Direction::Down, r - offset, c);
            } else {
                assert(try_views(tries@) =~= mid1 + try_from(b, w@, len as int, Direction::Down, r - offset, c as int));
            }
            assert(try_views(tries@) =~= before + try_from(b, w@, len as int, Direction::Across, r as int, c - offset)
                + try_from(b, w@, len as int, Direction::Down, r - offset, c as int));
        }
        offset = offset + char_width(ch);
        j = j + 1;
    }
}

/// The moves tried through the anchor (r, c), word by word (`anchor_tries`).
fn anchor_tries_of(board: &Board, words: &Vec<String>, r: usize, c: usize) -> (res: Vec<Vec<TilePlacement>>)
    requires
        board.wf(),
        board.size == 15,
        r < 15,
        c < 15,
        board.model().cell(r as int, c as int).tile is Some,
        forall|k: int| 0 <= k < words@.len() ==> byte_len(#[trigger] words@[k]@) <= 10,
    ensures
        try_views(res@) == anchor_tries(board.model(), words@, r as int, c as int),
{
    let e = match &board.squares[r][c].tile {
        Some(t) => to_lowercase(t.as_str()),
        None => String::new(),
    };
    let mut res: Vec<Vec<TilePlacement>> = Vec::new();
    let mut i: usize = 0;
    while i < words.len()
        invariant
            board.wf(),
            board.size == 15,
            r < 15,
            c < 15,
            e@ == lowercase(board.model().cell(r as int, c as int).tile.unwrap()),
            forall|k: int| 0 <= k < words@.len() ==> byte_len(#[trigger] words@[k]@) <= 10,
            0 <= i <= words@.len(),
            try_views(res@) == anchor_tries(board.model(), words@.take(i as int), r as int, c as int),
        decreases words@.len() - i,
    {
        assert(words@.take(i + 1).drop_last() =~= words@.take(i as int));
        let w = &words[i];
        assert(byte_len(words@[i as int]@) <= 10);
        push_word_tries(&mut res, board, w.as_str(), r, c, &e);
        i = i + 1;
    }
    assert(words@.take(words@.len() as int) =~= words@);
    res
}

/// Whether (r, c) is a square of the board that holds a tile.
pub open spec fn occupied(b: BoardModel, r: int, c: int) -> bool {
    b.on_board(r, c) && b.cell(r, c).tile is Some
}

/// `anchors` lists each square that holds a tile exactly once, in some order.
pub open spec fn lists_occupied(b: BoardModel, anchors: Seq<(usize, usize)>) -> bool {
    &&& anchors.no_duplicates()
    &&& forall|r: usize, c: usize| #[trigger] anchors.contains((r, c)) <==> occupied(b, r as int, c as int)
}

/// Whether square `a` comes before square `b` in reading order.
pub open spec fn reads_before(a: (usize, usize), b: (usize, usize)) -> bool {
    a.0 < b.0 || (a.0 == b.0 && a.1 < b.1)
}

/// The squares that hold a tile, in reading order.
fn occupied_squares(board: &Board) -> (res: Vec<(usize, usize)>)
    requires
        board.wf(),
    ensures
        lists_occupied(board.model(), res@),
{
    let ghost b = board.model();
    let size = board.size;
    let mut res: Vec<(usize, usize)> = Vec::new();
    let mut r: usize = 0;
    while r < size
        invariant
            board.wf(),
            b == board.model(),
            size == board.size,
            0 <= r <= size,
            forall|i: int, j: int| 0 <= i < j < res@.len() ==> reads_before(#[trigger] res@[i], #[trigger] res@[j]),
            forall|i: int| 0 <= i < res@.len() ==> (#[trigger] res@[i]).0 < r && occupied(b, res@[i].0 as int, res@[i].1 as int),
            forall|rr: usize, cc: usize| rr < r && occupied(b, rr as int, cc as int) ==> #[trigger] res@.contains((rr, cc)),
        decreases size - r,
    {
        let mut c: usize = 0;
        while c < size
            invariant
                board.wf(),
                b == board.model(),
                size == board.size,
                0 <= r < size,
                0 <= c <= size,
                forall|i: int, j: int| 0 <= i < j < res@.len() ==> reads_before(#[trigger] res@[i], #[trigger] res@[j]),
                forall|i: int| 0 <= i < res@.len() ==> reads_before(#[trigger] res@[i], (r, c)) && occupied(b, res@[i].0 as int, res@[i].1 as int),
                forall|rr: usize, cc: usize| (rr < r || (rr == r && cc < c)) && occupied(b, rr as int, cc as int) ==> #[trigger] res@.contains((rr, cc)),
            decreases size - c,
        {
            if board.squares[r][c].tile.is_some() {
                let ghost before = res@;
                res.push((r, c));
                assert forall|rr: usize, cc: usize| before.contains((rr, cc)) implies #[trigger] res@.contains((rr, cc)) by {
                    let k = choose|k: int| 0 <= k < before.len() && before[k] == (rr, cc);
                    assert(res@[k] == (rr, cc));
                }
                assert(res@[before.len() as int] == (r, c));
            }
            c = c + 1;
        }
        r = r + 1;
    }
    assert forall|rr: usize, cc: usize| #[trigger] res@.contains((rr, cc)) implies occupied(b, rr as int, cc as int) by {
        let k = choose|k: int| 0 <= k < res@.len() && res@[k] == (rr, cc);
        assert(occupied(b, res@[k].0 as int, res@[k].1 as int));
    }
    assert forall|i: int, j: int| 0 <= i < res@.len() && 0 <= j < res@.len() && i != j implies res@[i] != res@[j] by {
        if i < j {
            assert(reads_before(res@[i], res@[j]));
        } else {
            assert(reads_before(res@[j], res@[i]));
        }
    }
    res
}

/// A permutation of a list of the occupied squares lists them too.
proof fn lemma_permuted_anchors(b: BoardModel, a1: Seq<(usize, usize)>, a2: Seq<(usize, usize)>)
    requires
        lists_occupied(b, a1),
        a2.to_multiset() == a1.to_multiset(),
    ensures
        lists_occupied(b, a2),
{
    a1.lemma_multiset_has_no_duplicates();
    assert forall|x: (usize, usize)| a2.to_multiset().contains(x) implies a2.to_multiset().count(x) == 1 by {
    }
    a2.lemma_multiset_has_no_duplicates_conv();
    assert forall|r: usize, c: usize| #[trigger] a2.contains((r, c)) <==> occupied(b, r as int, c as int) by {
        vstd::seq_lib::to_multiset_contains(a1, (r, c));
        vstd::seq_lib::to_multiset_contains(a2, (r, c));
    }
}

/// The placements as the (row, col, letter) triples that a move is made of.
pub open spec fn tuples_of(ps: Seq<TilePlacement>) -> Seq<(usize, usize, String)> {
    ps.map_values(|p: TilePlacement| (p.row, p.col, p.letter))
}

/// The placements of each try.
pub open spec fn try_seqs(tries: Seq<Vec<TilePlacement>>) -> Seq<Seq<TilePlacement>> {
    tries.map_values(|t: Vec<TilePlacement>| t@)
}

/// The tries that would be played, in order, each with its score.
pub open spec fn valid_moves(g: Game, tries: Seq<Seq<TilePlacement>>) -> Seq<(Seq<TilePlacement>, int)>
    decreases tries.len(),
{
    if tries.len() == 0 {
        Seq::empty()
    } else {
        let rest = valid_moves(g, tries.drop_last());
        let t = tries.last();
        if play_succeeds(g, tuples_of(t)) {
            rest.push((t, play_score(g, tuples_of(t))))
        } else {
            rest
        }
    }
}

/// Whether every try stays within machine integers when played.
pub open spec fn tries_in_range(g: Game, tries: Seq<Seq<TilePlacement>>) -> bool {
    forall|k: int| 0 <= k < tries.len() ==> play_in_range(g, tuples_of(#[trigger] tries[k]))
}

/// A word placement that the bot may play, with its score.
struct CandidatePlacement {
    placements: Vec<TilePlacement>,
    score: u32,
}

/// The candidates seen as their placements and scores.
spec fn candidate_views(c: Seq<CandidatePlacement>) -> Seq<(Seq<TilePlacement>, int)> {
    c.map_values(|m: CandidatePlacement| (m.placements@, m.score as int))
}

/// Copies a list of placements.
fn clone_placements(v: &Vec<TilePlacement>) -> (res: Vec<TilePlacement>)
    ensures
        res@ == v@,
{
    let res = v.clone();
    assert forall|j: int| 0 <= j < v@.len() implies res@[j] == v@[j] by {
        assert(cloned::<TilePlacement>(v@[j], res@[j]));
    }
    assert(res@ =~= v@);
    res
}

/// Tests whether a placement would be played, and for how many points:
/// `None` when playing it would leave the machine integers.
fn test_placement(game: &Game, placements: &Vec<TilePlacement>) -> (res: Option<Option<CandidatePlacement>>)
    requires
        game.wf(),
    ensures
        res is Some <==> play_in_range(*game, tuples_of(placements@)),
        res matches Some(r) ==> (r is Some <==> play_succeeds(*game, tuples_of(placements@))),
        res matches Some(Some(c)) ==> c.placements@ == placements@ && c.score == play_score(*game, tuples_of(placements@)),
{
    let mut tuples: Vec<(usize, usize, String)> = Vec::new();
    let mut i: usize = 0;
    while i < placements.len()
        invariant
            0 <= i <= placements@.len(),
            tuples@ == tuples_of(placements@).take(i as int),
        decreases placements@.len() - i,
    {
        let p = &placements[i];
        tuples.push((p.row, p.col, p.letter.clone()));
        assert(tuples_of(placements@).take(i + 1) =~= tuples_of(placements@).take(i as int).push((p.row, p.col, p.letter)));
        i = i + 1;
    }
    assert(tuples_of(placements@).take(placements@.len() as int) =~= tuples_of(placements@));
    match game.try_move(tuples.as_slice()) {
        None => None,
        Some(None) => Some(None),
        Some(Some(score)) => Some(Some(CandidatePlacement { placements: clone_placements(placements), score })),
    }
}

/// Tests each try in turn; those that would be played join `moves`. Stops at
/// the first try whose play would leave the machine integers and returns its
/// index.
fn test_tries(game: &Game, tries: Vec<Vec<TilePlacement>>, moves: &mut Vec<CandidatePlacement>) -> (res: Option<usize>)
    requires
        game.wf(),
    ensures
        res is None ==> tries_in_range(*game, try_seqs(tries@)),
        res is None ==> candidate_views(final(moves)@) == candidate_views(old(moves)@) + valid_moves(*game, try_seqs(tries@)),
        res matches Some(j) ==> j < tries@.len() && tries_in_range(*game, try_seqs(tries@).take(j as int))
            && !play_in_range(*game, tuples_of(tries@[j as int]@)),
{
    let ghost all = try_seqs(tries@);
    let ghost start = candidate_views(moves@);
    let n = tries.len();
    let mut i: usize = 0;
    while i < n
        invariant
            game.wf(),
            n == all.len(),
            all == try_seqs(tries@),
            0 <= i <= n,
            tries_in_range(*game, all.take(i as int)),
            candidate_views(moves@) == start + valid_moves(*game, all.take(i as int)),
        decreases n - i,
    {
        let t = &tries[i];
        assert(t@ == all[i as int]);
        assert(all.take(i + 1).drop_last() =~= all.take(i as int));
        match test_placement(game, t) {
            None => {
                return Some(i);
            },
            Some(None) => {},
            Some(Some(c)) => {
                let ghost before = candidate_views(moves@);
                moves.push(c);
                assert(candidate_views(moves@) =~= before.push((c.placements@, c.score as int)));
            },
        }
        i = i + 1;
    }
    assert(all.take(n as int) =~= all);
    None
}

/// The orders in which the levels rank the moves they pick from.
#[derive(PartialEq, Eq, Structural, Clone, Copy)]
pub enum MoveOrder {
    /// Lowest score first.
    LowestFirst,
    /// Highest score first.
    HighestFirst,
    /// Most tiles first, then highest score.
    LongestFirst,
}

/// Whether move `j` comes before move `i` when the moves are sorted stably by `order`.
pub open spec fn sorted_before(order: MoveOrder, moves: Seq<(Seq<TilePlacement>, int)>, i: int, j: int) -> bool {
    let si = moves[i].1;
    let sj = moves[j].1;
    let li = moves[i].0.len();
    let lj = moves[j].0.len();
    match order {
        MoveOrder::LowestFirst => sj < si || (sj == si && j < i),
        MoveOrder::HighestFirst => sj > si || (sj == si && j < i),
        MoveOrder::LongestFirst => lj > li || (lj == li && (sj > si || (sj == si && j < i))),
    }
}

/// The number of moves among the first `k` that come before move `i` in `order`.
pub open spec fn rank_among(order: MoveOrder, moves: Seq<(Seq<TilePlacement>, int)>, i: int, k: int) -> nat
    decreases k,
{
    if k <= 0 {
        0
    } else {
        rank_among(order, moves, i, k - 1) + if sorted_before(order, moves, i, k - 1) { 1nat } else { 0nat }
    }
}

/// The position of move `i` once the moves are sorted stably by `order`.
pub open spec fn sort_position(order: MoveOrder, moves: Seq<(Seq<TilePlacement>, int)>, i: int) -> nat {
    rank_among(order, moves, i, moves.len() as int)
}

/// Whether a bot of the given level may pick move `i`: the beginner one of
/// the lower-scoring half, the unpredictable bot any move, the tacticians one
/// of the three best, the bingo hunter the move with the most tiles (best
/// score among those), every other level the best-scoring move; ties go to
/// the move found first.
pub open spec fn level_allows(level: Seq<char>, moves: Seq<(Seq<TilePlacement>, int)>, i: int) -> bool {
    let n = moves.len() as int;
    if level == "Curlew (Okolo)"@ {
        sort_position(MoveOrder::LowestFirst, moves, i) < if n / 2 > 1 { n / 2 } else { 1 }
    } else if level == "Ottam tuwo"@ {
        true
    } else if level == "King Jaja"@ || level == "Alagbarigha"@ {
        sort_position(MoveOrder::HighestFirst, moves, i) < if n < 3 { n } else { 3 }
    } else if level == "King Perekule I"@ {
        sort_position(MoveOrder::LongestFirst, moves, i) == 0
    } else {
        sort_position(MoveOrder::HighestFirst, moves, i) == 0
    }
}

proof fn lemma_first_in_order(order: MoveOrder, moves: Seq<(Seq<TilePlacement>, int)>, i: int, k: int)
    requires
        rank_among(order, moves, i, k) == 0,
    ensures
        forall|j: int| 0 <= j < k ==> !sorted_before(order, moves, i, j),
    decreases k,
{
    if k > 0 {
        lemma_first_in_order(order, moves, i, k - 1);
    }
}

/// The bingo hunter's pick uses the most tiles: no move found places more
/// tiles, and none with as many tiles scores more.
pub proof fn lemma_bingo_hunter_picks_most_tiles(moves: Seq<(Seq<TilePlacement>, int)>, i: int)
    requires
        0 <= i < moves.len(),
        level_allows("King Perekule I"@, moves, i),
    ensures
        forall|j: int| 0 <= j < moves.len() ==> (#[trigger] moves[j]).0.len() <= moves[i].0.len(),
        forall|j: int| 0 <= j < moves.len() && (#[trigger] moves[j]).0.len() == moves[i].0.len() ==> moves[j].1 <= moves[i].1,
{
    reveal_strlit("King Perekule I");
    reveal_strlit("Curlew (Okolo)");
    reveal_strlit("Ottam tuwo");
    reveal_strlit("King Jaja");
    reveal_strlit("Alagbarigha");
    assert("King Perekule I"@ != "Curlew (Okolo)"@) by { assert("King Perekule I"@[0] != "Curlew (Okolo)"@[0]); }
    assert("King Perekule I"@ != "Ottam tuwo"@) by { assert("King Perekule I"@[0] != "Ottam tuwo"@[0]); }
    assert("King Perekule I"@ != "King Jaja"@) by { assert("King Perekule I"@.len() != "King Jaja"@.len()); }
    assert("King Perekule I"@ != "Alagbarigha"@) by { assert("King Perekule I"@[0] != "Alagbarigha"@[0]); }
    lemma_first_in_order(MoveOrder::LongestFirst, moves, i, moves.len() as int);
    assert forall|j: int| 0 <= j < moves.len() implies (#[trigger] moves[j]).0.len() <= moves[i].0.len() by {
        assert(!sorted_before(MoveOrder::LongestFirst, moves, i, j));
    }
    assert forall|j: int| 0 <= j < moves.len() && (#[trigger] moves[j]).0.len() == moves[i].0.len() implies moves[j].1 <= moves[i].1 by {
        assert(!sorted_before(MoveOrder::LongestFirst, moves, i, j));
    }
}

/// A bot of a level other than the beginner, the unpredictable one, the
/// tacticians and the bingo hunter picks a best-scoring move, the first
/// found among equals.
pub proof fn lemma_strong_levels_pick_best(level: Seq<char>, moves: Seq<(Seq<TilePlacement>, int)>, i: int)
    requires
        0 <= i < moves.len(),
        level != "Curlew (Okolo)"@,
        level != "Ottam tuwo"@,
        level != "King Jaja"@,
        level != "Alagbarigha"@,
        level != "King Perekule I"@,
        level_allows(level, moves, i),
    ensures
        forall|j: int| 0 <= j < moves.len() ==> (#[trigger] moves[j]).1 <= moves[i].1,
        forall|j: int| 0 <= j < i ==> (#[trigger] moves[j]).1 < moves[i].1,
{
    lemma_first_in_order(MoveOrder::HighestFirst, moves, i, moves.len() as int);
    assert forall|j: int| 0 <= j < moves.len() implies (#[trigger] moves[j]).1 <= moves[i].1 by {
        assert(!sorted_before(MoveOrder::HighestFirst, moves, i, j));
    }
    assert forall|j: int| 0 <= j < i implies (#[trigger] moves[j]).1 < moves[i].1 by {
        assert(!sorted_before(MoveOrder::HighestFirst, moves, i, j));
    }
}

/// Whether move `j` comes before move `i` in `order` (`sorted_before`).
fn comes_before(order: MoveOrder, moves: &Vec<CandidatePlacement>, i: usize, j: usize) -> (res: bool)
    requires
        i < moves@.len(),
        j < moves@.len(),
    ensures
        res == sorted_before(order, candidate_views(moves@), i as int, j as int),
{
    let si = moves[i].score;
    let sj = moves[j].score;
    let li = moves[i].placements.len();
    let lj = moves[j].placements.len();
    match order {
        MoveOrder::LowestFirst => sj < si || (sj == si && j < i),
        MoveOrder::HighestFirst => sj > si || (sj == si && j < i),
        MoveOrder::LongestFirst => lj > li || (lj == li && (sj > si || (sj == si && j < i))),
    }
}

/// The position of move `i` after a stable sort by `order` (`sort_position`).
fn position_in(order: MoveOrder, moves: &Vec<CandidatePlacement>, i: usize) -> (res: usize)
    requires
        i < moves@.len(),
    ensures
        res == sort_position(order, candidate_views(moves@), i as int),
{
    let mut count: usize = 0;
    let mut k: usize = 0;
    while k < moves.len()
        invariant
            i < moves@.len(),
            0 <= k <= moves@.len(),
            count == rank_among(order, candidate_views(moves@), i as int, k as int),
            count <= k,
        decreases moves@.len() - k,
    {
        if comes_before(order, moves, i, k) {
            count = count + 1;
        }
        k = k + 1;
    }
    count
}

proof fn lemma_sorted_before_transitive(order: MoveOrder, moves: Seq<(Seq<TilePlacement>, int)>, i: int, j: int, k: int)
    requires
        sorted_before(order, moves, i, j),
        sorted_before(order, moves, j, k),
    ensures
        sorted_before(order, moves, i, k),
{
}

proof fn lemma_rank_zero(order: MoveOrder, moves: Seq<(Seq<TilePlacement>, int)>, i: int, k: int)
    requires
        forall|j: int| 0 <= j < k ==> !sorted_before(order, moves, i, j),
    ensures
        rank_among(order, moves, i, k) == 0,
    decreases k,
{
    if k > 0 {
        lemma_rank_zero(order, moves, i, k - 1);
    }
}

/// The move that a stable sort by `order` puts first.
fn first_in(order: MoveOrder, moves: &Vec<CandidatePlacement>) -> (res: usize)
    requires
        moves@.len() > 0,
    ensures
        res < moves@.len(),
        sort_position(order, candidate_views(moves@), res as int) == 0,
{
    let ghost m = candidate_views(moves@);
    let mut best: usize = 0;
    let mut j: usize = 1;
    while j < moves.len()
        invariant
            m == candidate_views(moves@),
            0 < j <= moves@.len(),
            best < j,
            forall|k: int| 0 <= k < j ==> !sorted_before(order, m, best as int, k),
        decreases moves@.len() - j,
    {
        if comes_before(order, moves, best, j) {
            proof {
                assert forall|k: int| 0 <= k < j + 1 implies !sorted_before(order, m, j as int, k) by {
                    if k < j && sorted_before(order, m, j as int, k) {
                        lemma_sorted_before_transitive(order, m, best as int, j as int, k);
                    }
                }
            }
            best = j;
        }
        j = j + 1;
    }
    proof {
        lemma_rank_zero(order, m, best as int, m.len() as int);
    }
    best
}

/// Picks a move whose position after a stable sort by `order` is below
/// `limit`, at random among them.
fn pick_among_first(order: MoveOrder, moves: &Vec<CandidatePlacement>, limit: usize) -> (res: usize)
    requires
        moves@.len() > 0,
        limit > 0,
    ensures
        res < moves@.len(),
        sort_position(order, candidate_views(moves@), res as int) < limit,
{
    let ghost m = candidate_views(moves@);
    let best = first_in(order, moves);
    let mut pool: Vec<usize> = Vec::new();
    let mut i: usize = 0;
    while i < moves.len()
        invariant
            m == candidate_views(moves@),
            0 <= i <= moves@.len(),
            best < moves@.len(),
            sort_position(order, m, best as int) == 0,
            forall|x: usize| #[trigger] pool@.contains(x) <==> (x < i && sort_position(order, m, x as int) < limit),
        decreases moves@.len() - i,
    {
        if position_in(order, moves, i) < limit {
            let ghost before = pool@;
            pool.push(i);
            assert forall|x: usize| #[trigger] pool@.contains(x) <==> (x < i + 1 && sort_position(order, m, x as int) < limit) by {
                if before.contains(x) {
                    let k = choose|k: int| 0 <= k < before.len() && before[k] == x;
                    assert(pool@[k] == x);
                }
                if pool@.contains(x) && x != i {
                    let k = choose|k: int| 0 <= k < pool@.len() && pool@[k] == x;
                    assert(before[k] == x);
                }
                if x == i {
                    assert(pool@[before.len() as int] == x);
                }
            }
        } else {
            assert forall|x: usize| #[trigger] pool@.contains(x) <==> (x < i + 1 && sort_position(order, m, x as int) < limit) by {
            }
        }
        i = i + 1;
    }
    assert(pool@.contains(best));
    *choose_from(pool.as_slice())
}

/// Picks the move that a bot of the given level plays (`level_allows`).
fn select_move(moves: &Vec<CandidatePlacement>, level: &str) -> (res: usize)
    requires
        moves@.len() > 0,
    ensures
        res < moves@.len(),
        level_allows(level@, candidate_views(moves@), res as int),
{
    let n = moves.len();
    if same_text(level, "Curlew (Okolo)") {
        let half = n / 2;
        let limit = if half > 1 { half } else { 1 };
        pick_among_first(MoveOrder::LowestFirst, moves, limit)
    } else if same_text(level, "Ottam tuwo") {
        let mut all: Vec<usize> = Vec::new();
        let mut i: usize = 0;
        while i < n
            invariant
                n == moves@.len(),
                0 <= i <= n,
                forall|k: int| 0 <= k < all@.len() ==> (#[trigger] all@[k]) < n,
                all@.len() == i,
            decreases n - i,
        {
            all.push(i);
            i = i + 1;
        }
        let pick = *choose_from(all.as_slice());
        proof {
            let k = choose|k: int| 0 <= k < all@.len() && all@[k] == pick;
        }
        pick
    } else if same_text(level, "King Jaja") || same_text(level, "Alagbarigha") {
        let limit = if n < 3 { n } else { 3 };
        pick_among_first(MoveOrder::HighestFirst, moves, limit)
    } else if same_text(level, "King Perekule I") {
        first_in(MoveOrder::LongestFirst, moves)
    } else {
        first_in(MoveOrder::HighestFirst, moves)
    }
}

/// The letters of a rack, as strings.
pub open spec fn letters_of(rack: Seq<Tile>) -> Seq<String> {
    rack.map_values(|t: Tile| t.letter)
}

/// Copies the letters of a rack.
fn rack_letter_list(rack: &Vec<Tile>) -> (res: Vec<String>)
    ensures
        res@ == letters_of(rack@),
{
    let mut res: Vec<String> = Vec::new();
    let mut i: usize = 0;
    while i < rack.len()
        invariant
            0 <= i <= rack@.len(),
            res@ == letters_of(rack@).take(i as int),
        decreases rack@.len() - i,
    {
        res.push(rack[i].letter.clone());
        assert(letters_of(rack@).take(i + 1) =~= letters_of(rack@).take(i as int).push(rack@[i as int].letter));
        i = i + 1;
    }
    assert(letters_of(rack@).take(rack@.len() as int) =~= letters_of(rack@));
    res
}

/// What the bot does when it has no word to play: with tiles left both in
/// the bag and on its rack, it exchanges three rack letters taken at random
/// (all of them when it holds fewer); otherwise it passes.
pub open spec fn fallback_outcome(rack: Seq<String>, bag_len: int, res: BotMoveAction) -> bool {
    if bag_len > 0 && rack.len() > 0 {
        res matches BotMoveAction::ExchangeTiles { letters } && exists|s: Seq<String>|
            s.to_multiset() == rack.to_multiset() && letters@ == s.take(if rack.len() < 3 { rack.len() as int } else { 3 })
    } else {
        res is PassTurn
    }
}

/// Exchanges or passes when no word can be played (`fallback_outcome`).
fn choose_fallback_move(rack: &[String], bag_len: usize) -> (res: BotMoveAction)
    ensures
        fallback_outcome(rack@, bag_len as int, res),
{
    if bag_len > 0 && rack.len() > 0 {
        let count = if rack.len() < 3 { rack.len() } else { 3 };
        let mut shuffled: Vec<String> = Vec::new();
        let mut i: usize = 0;
        while i < rack.len()
            invariant
                0 <= i <= rack@.len(),
                shuffled@ == rack@.take(i as int),
            decreases rack@.len() - i,
        {
            shuffled.push(rack[i].clone());
            assert(rack@.take(i + 1) =~= rack@.take(i as int).push(rack@[i as int]));
            i = i + 1;
        }
        assert(rack@.take(rack@.len() as int) =~= rack@);
        shuffle_vec(&mut shuffled);
        let mut letters: Vec<String> = Vec::new();
        let mut k: usize = 0;
        while k < count
            invariant
                count <= shuffled@.len(),
                0 <= k <= count,
                letters@ == shuffled@.take(k as int),
            decreases count - k,
        {
            letters.push(shuffled[k].clone());
            assert(shuffled@.take(k + 1) =~= shuffled@.take(k as int).push(shuffled@[k as int]));
            k = k + 1;
        }
        BotMoveAction::ExchangeTiles { letters }
    } else {
        BotMoveAction::PassTurn
    }
}

/// The placements of each try, seen as squares and letters.
pub open spec fn seq_views(tried: Seq<Seq<TilePlacement>>) -> Seq<Seq<(usize, usize, Seq<char>)>> {
    tried.map_values(|t: Seq<TilePlacement>| placement_views(t))
}

/// The opening moves tried for each word, in order.
pub open spec fn opening_search(words: Seq<String>) -> Seq<Seq<(usize, usize, Seq<char>)>>
    decreases words.len(),
{
    if words.len() == 0 {
        Seq::empty()
    } else {
        opening_search(words.drop_last()) + opening_tries(words.last()@)
    }
}

/// The moves tried through each anchor, in order.
pub open spec fn anchors_search(b: BoardModel, words: Seq<String>, anchors: Seq<(usize, usize)>) -> Seq<Seq<(usize, usize, Seq<char>)>>
    decreases anchors.len(),
{
    if anchors.len() == 0 {
        Seq::empty()
    } else {
        anchors_search(b, words, anchors.drop_last()) + anchor_tries(b, words, anchors.last().0 as int, anchors.last().1 as int)
    }
}

/// Whether the search ended on a try that would leave the machine integers:
/// `tried` holds the tries made, in order, the last one that one.
pub open spec fn search_overflowed(g: Game, search: Seq<Seq<(usize, usize, Seq<char>)>>, tried: Seq<Seq<TilePlacement>>) -> bool {
    &&& tried.len() > 0
    &&& seq_views(tried) == search.take(tried.len() as int)
    &&& tries_in_range(g, tried.drop_last())
    &&& !play_in_range(g, tuples_of(tried.last()))
}

/// Whether the search went through: `tried` holds all its tries, each within
/// machine integers.
pub open spec fn search_completed(g: Game, search: Seq<Seq<(usize, usize, Seq<char>)>>, tried: Seq<Seq<TilePlacement>>) -> bool {
    &&& seq_views(tried) == search
    &&& tries_in_range(g, tried)
}

proof fn lemma_valid_moves_concat(g: Game, a: Seq<Seq<TilePlacement>>, b: Seq<Seq<TilePlacement>>)
    ensures
        valid_moves(g, a + b) == valid_moves(g, a) + valid_moves(g, b),
    decreases b.len(),
{
    if b.len() == 0 {
        assert(a + b =~= a);
        assert(valid_moves(g, a) + valid_moves(g, b) =~= valid_moves(g, a));
    } else {
        assert((a + b).drop_last() =~= a + b.drop_last());
        assert((a + b).last() == b.last());
        lemma_valid_moves_concat(g, a, b.drop_last());
        if play_succeeds(g, tuples_of(b.last())) {
            assert(valid_moves(g, a + b) =~= valid_moves(g, a) + valid_moves(g, b));
        } else {
            assert(valid_moves(g, a + b) =~= valid_moves(g, a) + valid_moves(g, b));
        }
    }
}

proof fn lemma_opening_prefix(words: Seq<String>, m: int)
    requires
        0 <= m <= words.len(),
    ensures
        opening_search(words.take(m)).len() <= opening_search(words).len(),
        opening_search(words.take(m)) == opening_search(words).take(opening_search(words.take(m)).len() as int),
    decreases words.len(),
{
    if m == words.len() {
        assert(words.take(m) =~= words);
    } else {
        assert(words.take(m) =~= words.drop_last().take(m));
        lemma_opening_prefix(words.drop_last(), m);
        assert(opening_search(words.take(m)) =~= opening_search(words).take(opening_search(words.take(m)).len() as int));
    }
}

proof fn lemma_anchors_prefix(b: BoardModel, words: Seq<String>, anchors: Seq<(usize, usize)>, m: int)
    requires
        0 <= m <= anchors.len(),
    ensures
        anchors_search(b, words, anchors.take(m)).len() <= anchors_search(b, words, anchors).len(),
        anchors_search(b, words, anchors.take(m)) == anchors_search(b, words, anchors).take(anchors_search(b, words, anchors.take(m)).len() as int),
    decreases anchors.len(),
{
    if m == anchors.len() {
        assert(anchors.take(m) =~= anchors);
    } else {
        assert(anchors.take(m) =~= anchors.drop_last().take(m));
        lemma_anchors_prefix(b, words, anchors.drop_last(), m);
        assert(anchors_search(b, words, anchors.take(m)) =~= anchors_search(b, words, anchors).take(anchors_search(b, words, anchors.take(m)).len() as int));
    }
}

/// Tries the opening moves of each word in turn, gathering those that would
/// be played into `moves`: `false`, with the tries made, when one would leave
/// the machine integers.
fn search_opening(game: &Game, words: &Vec<String>, moves: &mut Vec<CandidatePlacement>) -> (res: (bool, Ghost<Seq<Seq<TilePlacement>>>))
    requires
        game.wf(),
        old(moves)@.len() == 0,
        forall|k: int| 0 <= k < words@.len() ==> 2 <= byte_len(#[trigger] words@[k]@),
    ensures
        res.0 ==> search_completed(*game, opening_search(words@), res.1@),
        res.0 ==> candidate_views(final(moves)@) == valid_moves(*game, res.1@),
        !res.0 ==> search_overflowed(*game, opening_search(words@), res.1@),
{
    let ghost mut tried: Seq<Seq<TilePlacement>> = Seq::empty();
    let mut k: usize = 0;
    while k < words.len()
        invariant
            game.wf(),
            forall|k: int| 0 <= k < words@.len() ==> 2 <= byte_len(#[trigger] words@[k]@),
            0 <= k <= words@.len(),
            seq_views(tried) == opening_search(words@.take(k as int)),
            tries_in_range(*game, tried),
            candidate_views(moves@) == valid_moves(*game, tried),
        decreases words@.len() - k,
    {
        assert(words@.take(k + 1).drop_last() =~= words@.take(k as int));
        assert(2 <= byte_len(words@[k as int]@));
        let chunk = opening_tries_of(words[k].as_str());
        let ghost cs = try_seqs(chunk@);
        assert(seq_views(cs) =~= try_views(chunk@));
        let ghost before = moves@;
        match test_tries(game, chunk, moves) {
            Some(j) => {
                let ghost done = tried + cs.take(j + 1);
                proof {
                    lemma_opening_prefix(words@, k + 1);
                    assert(seq_views(done) =~= seq_views(tried) + seq_views(cs).take(j + 1));
                    assert(seq_views(tried) + seq_views(cs) == opening_search(words@.take(k + 1)));
                    assert(seq_views(done) =~= opening_search(words@.take(k + 1)).take(done.len() as int));
                    assert(opening_search(words@).take(done.len() as int) =~= opening_search(words@.take(k + 1)).take(done.len() as int));
                    assert(done.drop_last() =~= tried + cs.take(j as int));
                    assert(done.last() == cs[j as int]);
                    assert forall|i: int| 0 <= i < done.drop_last().len() implies play_in_range(*game, tuples_of(#[trigger] done.drop_last()[i])) by {
                        if i < tried.len() {
                            assert(done.drop_last()[i] == tried[i]);
                        } else {
                            assert(done.drop_last()[i] == cs.take(j as int)[i - tried.len()]);
                        }
                    }
                }
                return (false, Ghost(done));
            },
            None => {
                proof {
                    lemma_valid_moves_concat(*game, tried, cs);
                    assert forall|i: int| 0 <= i < (tried + cs).len() implies play_in_range(*game, tuples_of(#[trigger] (tried + cs)[i])) by {
                        if i < tried.len() {
                            assert((tried + cs)[i] == tried[i]);
                        } else {
                            assert((tried + cs)[i] == cs[i - tried.len()]);
                        }
                    }
                    assert(seq_views(tried + cs) =~= seq_views(tried) + seq_views(cs));
                    tried = tried + cs;
                }
            },
        }
        k = k + 1;
    }
    assert(words@.take(words@.len() as int) =~= words@);
    (true, Ghost(tried))
}

/// Tries the moves through each of the first `limit` anchors in turn,
/// gathering those that would be played into `moves`: `false`, with the tries
/// made, when one would leave the machine integers.
fn search_anchors(game: &Game, words: &Vec<String>, anchors: &Vec<(usize, usize)>, limit: usize, moves: &mut Vec<CandidatePlacement>) -> (res: (bool, Ghost<Seq<Seq<TilePlacement>>>))
    requires
        game.wf(),
        game.board.size == 15,
        old(moves)@.len() == 0,
        limit <= anchors@.len(),
        forall|m: int| 0 <= m < anchors@.len() ==> occupied(game.board.model(), (#[trigger] anchors@[m]).0 as int, anchors@[m].1 as int),
        forall|k: int| 0 <= k < words@.len() ==> byte_len(#[trigger] words@[k]@) <= 10,
    ensures
        res.0 ==> search_completed(*game, anchors_search(game.board.model(), words@, anchors@.take(limit as int)), res.1@),
        res.0 ==> candidate_views(final(moves)@) == valid_moves(*game, res.1@),
        !res.0 ==> search_overflowed(*game, anchors_search(game.board.model(), words@, anchors@.take(limit as int)), res.1@),
{
    let ghost b = game.board.model();
    let ghost chosen = anchors@.take(limit as int);
    let ghost mut tried: Seq<Seq<TilePlacement>> = Seq::empty();
    let mut m: usize = 0;
    while m < limit
        invariant
            game.wf(),
            game.board.size == 15,
            b == game.board.model(),
            chosen == anchors@.take(limit as int),
            limit <= anchors@.len(),
            forall|m: int| 0 <= m < anchors@.len() ==> occupied(b, (#[trigger] anchors@[m]).0 as int, anchors@[m].1 as int),
            forall|k: int| 0 <= k < words@.len() ==> byte_len(#[trigger] words@[k]@) <= 10,
            0 <= m <= limit,
            seq_views(tried) == anchors_search(b, words@, chosen.take(m as int)),
            tries_in_range(*game, tried),
            candidate_views(moves@) == valid_moves(*game, tried),
        decreases limit - m,
    {
        assert(chosen.take(m + 1).drop_last() =~= chosen.take(m as int));
        assert(chosen.take(m + 1).last() == anchors@[m as int]);
        let (r, c) = anchors[m];
        assert(occupied(b, r as int, c as int));
        let chunk = anchor_tries_of(&game.board, words, r, c);
        let ghost cs = try_seqs(chunk@);
        assert(seq_views(cs) =~= try_views(chunk@));
        match test_tries(game, chunk, moves) {
            Some(j) => {
                let ghost done = tried + cs.take(j + 1);
                proof {
                    lemma_anchors_prefix(b, words@, chosen, m + 1);
                    assert(seq_views(done) =~= seq_views(tried) + seq_views(cs).take(j + 1));
                    assert(seq_views(tried) + seq_views(cs) == anchors_search(b, words@, chosen.take(m + 1)));
                    assert(seq_views(done) =~= anchors_search(b, words@, chosen.take(m + 1)).take(done.len() as int));
                    assert(anchors_search(b, words@, chosen).take(done.len() as int) =~= anchors_search(b, words@, chosen.take(m + 1)).take(done.len() as int));
                    assert(done.drop_last() =~= tried + cs.take(j as int));
                    assert(done.last() == cs[j as int]);
                    assert forall|i: int| 0 <= i < done.drop_last().len() implies play_in_range(*game, tuples_of(#[trigger] done.drop_last()[i])) by {
                        if i < tried.len() {
                            assert(done.drop_last()[i] == tried[i]);
                        } else {
                            assert(done.drop_last()[i] == cs.take(j as int)[i - tried.len()]);
                        }
                    }
                }
                return (false, Ghost(done));
            },
            None => {
                proof {
                    lemma_valid_moves_concat(*game, tried, cs);
                    assert forall|i: int| 0 <= i < (tried + cs).len() implies play_in_range(*game, tuples_of(#[trigger] (tried + cs)[i])) by {
                        if i < tried.len() {
                            assert((tried + cs)[i] == tried[i]);
                        } else {
                            assert((tried + cs)[i] == cs[i - tried.len()]);
                        }
                    }
                    assert(seq_views(tried + cs) =~= seq_views(tried) + seq_views(cs));
                    tried = tried + cs;
                }
            },
        }
        m = m + 1;
    }
    assert(chosen.take(limit as int) =~= chosen);
    (true, Ghost(tried))
}

/// The words a bot of the given level considers for player `idx` of `g`.
pub open spec fn bot_words(g: Game, idx: int, level: Seq<char>) -> Seq<String> {
    word_candidates(
        g.dictionary.word_list(),
        max_word_len(level),
        texts(letters_of(g.players@[idx].rack@)),
        board_letter_set(g.board.model()),
        g.board.has_tiles(),
    )
}

/// How many of the `n` shuffled anchors a bot of the given level looks at.
pub open spec fn anchor_limit(level: Seq<char>, n: int) -> int {
    if level == "Curlew (Okolo)"@ || level == "Ottam tuwo"@ {
        if n < 5 { n } else { 5 }
    } else if level == "King Jaja"@ || level == "Queen Kambasa"@ {
        if n < 15 { n } else { 15 }
    } else {
        n
    }
}

/// How many anchors a bot of the given level looks at (`anchor_limit`).
fn anchor_limit_of(level: &str, n: usize) -> (res: usize)
    ensures
        res == anchor_limit(level@, n as int),
{
    if same_text(level, "Curlew (Okolo)") || same_text(level, "Ottam tuwo") {
        if n < 5 { n } else { 5 }
    } else if same_text(level, "King Jaja") || same_text(level, "Queen Kambasa") {
        if n < 15 { n } else { 15 }
    } else {
        n
    }
}

/// The moves the bot tries, in order: on an empty board the opening moves of
/// each word; otherwise the moves through the first anchors of `anchors`.
pub open spec fn bot_search(g: Game, level: Seq<char>, words: Seq<String>, anchors: Seq<(usize, usize)>) -> Seq<Seq<(usize, usize, Seq<char>)>> {
    let b = g.board.model();
    if !b.has_tiles() {
        opening_search(words)
    } else {
        anchors_search(b, words, anchors.take(anchor_limit(level, anchors.len() as int)))
    }
}

/// What the search made of the anchors and tries: `None` when it stopped on
/// a try that would leave the machine integers; otherwise the move picked by
/// the level among the tries that would be played, or the fallback when
/// none would.
pub open spec fn search_result(
    g: Game,
    level: Seq<char>,
    words: Seq<String>,
    anchors: Seq<(usize, usize)>,
    tried: Seq<Seq<TilePlacement>>,
    rack: Seq<String>,
    bag: int,
    res: Option<BotMoveAction>,
) -> bool {
    let search = bot_search(g, level, words, anchors);
    match res {
        None => search_overflowed(g, search, tried),
        Some(a) => {
            &&& search_completed(g, search, tried)
            &&& ({
                let moves = valid_moves(g, tried);
                if moves.len() == 0 {
                    fallback_outcome(rack, bag, a)
                } else {
                    a matches BotMoveAction::PlaceTiles { placements } && exists|i: int|
                        0 <= i < moves.len() && placements@ == moves[i].0 && level_allows(level, moves, i)
                }
            })
        },
    }
}

/// The bot's turn for player `idx` of `g` at the given level: with no word to
/// look for, the fallback; otherwise the result of a search through some
/// order of the anchors (none on an empty board).
pub open spec fn bot_outcome(g: Game, idx: int, level: Seq<char>, res: Option<BotMoveAction>) -> bool {
    let rack = letters_of(g.players@[idx].rack@);
    let bag = g.tile_bag@.len() as int;
    let words = bot_words(g, idx, level);
    if words.len() == 0 {
        res matches Some(a) && fallback_outcome(rack, bag, a)
    } else {
        exists|anchors: Seq<(usize, usize)>, tried: Seq<Seq<TilePlacement>>|
            lists_occupied(g.board.model(), anchors) && #[trigger] search_result(g, level, words, anchors, tried, rack, bag, res)
    }
}

proof fn lemma_candidate_lengths(words: Seq<String>, max: usize, rack: Seq<Seq<char>>, board: Set<Seq<char>>, filled: bool)
    ensures
        forall|k: int| 0 <= k < word_candidates(words, max, rack, board, filled).len()
            ==> 2 <= byte_len(#[trigger] word_candidates(words, max, rack, board, filled)[k]@) <= max,
    decreases words.len(),
{
    if words.len() > 0 {
        lemma_candidate_lengths(words.drop_last(), max, rack, board, filled);
        let rest = word_candidates(words.drop_last(), max, rack, board, filled);
        let all = word_candidates(words, max, rack, board, filled);
        assert forall|k: int| 0 <= k < all.len() implies 2 <= byte_len(#[trigger] all[k]@) <= max by {
            if k < rest.len() {
                assert(all[k] == rest[k]);
            }
        }
    }
}

/// The bot's move for player `bot_player_idx` at level `bot_level`
/// (`bot_outcome`): the dictionary words of the level's length that the
/// rack and board letters can spell are tried through the centre on an
/// empty board, else through the occupied squares in a random order (the
/// first 5 or 15 of them below the advanced levels); each try is tested as a
/// move, and the level picks among those that would be played. With nothing
/// to play the bot exchanges up to three random tiles, or passes when it
/// cannot. A word of more than eight bytes is not tried on the empty board.
/// `None` where the search cannot go on: a tried move whose score would
/// leave `u32`.
pub fn make_bot_move(game: &Game, bot_player_idx: usize, bot_level: &str) -> (res: Option<BotMoveAction>)
    requires
        game.wf(),
        bot_player_idx < game.players@.len(),
        game.board.size == 15,
    ensures
        bot_outcome(*game, bot_player_idx as int, bot_level@, res),
{
    let ghost g = *game;
    let ghost b = game.board.model();
    let rack_letters = rack_letter_list(&game.players[bot_player_idx].rack);
    let letters = board_letters(&game.board);
    let filled = game.board_has_tiles();
    let max_len = max_word_len_of(bot_level);
    let words = candidate_words(game.dictionary.all_words(), max_len, rack_letters.as_slice(), &letters, filled);
    let bag_len = game.tile_bag.len();
    let ghost rack = letters_of(game.players@[bot_player_idx as int].rack@);
    assert(words@ == bot_words(g, bot_player_idx as int, bot_level@));
    if words.len() == 0 {
        return Some(choose_fallback_move(rack_letters.as_slice(), bag_len));
    }
    proof {
        lemma_candidate_lengths(
            game.dictionary.word_list(),
            max_len,
            texts(rack_letters@),
            texts(letters@).to_set(),
            filled,
        );
    }
    let mut moves: Vec<CandidatePlacement> = Vec::new();
    let ghost mut anchors_used: Seq<(usize, usize)> = Seq::empty();
    let searched = if !filled {
        assert(lists_occupied(b, anchors_used)) by {
            assert forall|r: usize, c: usize| #[trigger] anchors_used.contains((r, c)) <==> occupied(b, r as int, c as int) by {
                if occupied(b, r as int, c as int) {
                    assert(b.has_tiles());
                }
            }
        }
        search_opening(game, &words, &mut moves)
    } else {
        let mut anchors = occupied_squares(&game.board);
        let ghost listed = anchors@;
        shuffle_vec(&mut anchors);
        proof {
            lemma_permuted_anchors(b, listed, anchors@);
            anchors_used = anchors@;
        }
        assert forall|m: int| 0 <= m < anchors@.len() implies occupied(b, (#[trigger] anchors@[m]).0 as int, anchors@[m].1 as int) by {
            assert(anchors@.contains((anchors@[m].0, anchors@[m].1)));
        }
        let limit = anchor_limit_of(bot_level, anchors.len());
        search_anchors(game, &words, &anchors, limit, &mut moves)
    };
    let ghost tried = searched.1@;
    if !searched.0 {
        assert(search_result(g, bot_level@, words@, anchors_used, tried, rack, bag_len as int, None));
        return None;
    }
    if moves.len() == 0 {
        let fallback = choose_fallback_move(rack_letters.as_slice(), bag_len);
        assert(search_result(g, bot_level@, words@, anchors_used, tried, rack, bag_len as int, Some(fallback)));
        return Some(fallback);
    }
    let i = select_move(&moves, bot_level);
    let action = BotMoveAction::PlaceTiles { placements: clone_placements(&moves[i].placements) };
    assert(candidate_views(moves@)[i as int].0 == moves@[i as int].placements@);
    assert(search_result(g, bot_level@, words@, anchors_used, tried, rack, bag_len as int, Some(action)));
    Some(action)
}

proof fn lemma_valid_moves_legal(g: Game, tried: Seq<Seq<TilePlacement>>)
    ensures
        forall|i: int| 0 <= i < valid_moves(g, tried).len() ==> {
            &&& play_succeeds(g, tuples_of(#[trigger] valid_moves(g, tried)[i].0))
            &&& valid_moves(g, tried)[i].1 == play_score(g, tuples_of(valid_moves(g, tried)[i].0))
        },
    decreases tried.len(),
{
    if tried.len() > 0 {
        lemma_valid_moves_legal(g, tried.drop_last());
        let rest = valid_moves(g, tried.drop_last());
        let all = valid_moves(g, tried);
        assert forall|i: int| 0 <= i < all.len() implies {
            &&& play_succeeds(g, tuples_of(#[trigger] all[i].0))
            &&& all[i].1 == play_score(g, tuples_of(all[i].0))
        } by {
            if i < rest.len() {
                assert(all[i] == rest[i]);
            }
        }
    }
}

/// The bot plays by the rules: the tiles it places make a move that the game
/// would play, and on an empty board that move covers the centre.
pub proof fn lemma_bot_plays_legal_moves(g: Game, idx: int, level: Seq<char>, placements: Vec<TilePlacement>)
    requires
        bot_outcome(g, idx, level, Some(BotMoveAction::PlaceTiles { placements })),
    ensures
        play_succeeds(g, tuples_of(placements@)),
        !g.board.has_tiles() ==> covers_center(tuples_of(placements@)),
{
    let res = Some(BotMoveAction::PlaceTiles { placements });
    let rack = letters_of(g.players@[idx].rack@);
    let bag = g.tile_bag@.len() as int;
    let words = bot_words(g, idx, level);
    let (anchors, tried) = choose|anchors: Seq<(usize, usize)>, tried: Seq<Seq<TilePlacement>>|
        lists_occupied(g.board.model(), anchors) && #[trigger] search_result(g, level, words, anchors, tried, rack, bag, res);
    let moves = valid_moves(g, tried);
    lemma_valid_moves_legal(g, tried);
    let i = choose|i: int| 0 <= i < moves.len() && placements@ == moves[i].0 && level_allows(level, moves, i);
    assert(play_succeeds(g, tuples_of(moves[i].0)));
}

/// The bot exchanges only tiles it holds: the letters it hands in are drawn
/// from its rack, three of them (all, when it holds fewer), and only while
/// the bag still has tiles.
pub proof fn lemma_bot_exchanges_own_tiles(g: Game, idx: int, level: Seq<char>, letters: Vec<String>)
    requires
        bot_outcome(g, idx, level, Some(BotMoveAction::ExchangeTiles { letters })),
    ensures
        letters@.to_multiset().subset_of(letters_of(g.players@[idx].rack@).to_multiset()),
        letters@.len() == if g.players@[idx].rack@.len() < 3 { g.players@[idx].rack@.len() } else { 3 },
        g.tile_bag@.len() > 0,
{
    let a = BotMoveAction::ExchangeTiles { letters };
    let res = Some(a);
    let rack = letters_of(g.players@[idx].rack@);
    let bag = g.tile_bag@.len() as int;
    let words = bot_words(g, idx, level);
    if words.len() != 0 {
        let (anchors, tried) = choose|anchors: Seq<(usize, usize)>, tried: Seq<Seq<TilePlacement>>|
            lists_occupied(g.board.model(), anchors) && #[trigger] search_result(g, level, words, anchors, tried, rack, bag, res);
    }
    assert(fallback_outcome(rack, bag, a));
    let s = choose|s: Seq<String>| s.to_multiset() == rack.to_multiset()
        && letters@ == s.take(if rack.len() < 3 { rack.len() as int } else { 3 });
    let k = if rack.len() < 3 { rack.len() as int } else { 3 };
    assert(s.len() == rack.len()) by {
        vstd::seq_lib::to_multiset_len(s);
        vstd::seq_lib::to_multiset_len(rack);
    }
    assert(s =~= s.take(k) + s.skip(k));
    vstd::seq_lib::lemma_multiset_commutative(s.take(k), s.skip(k));
}

proof fn lemma_fit_stays_none(b: BoardModel, w: Seq<char>, dir: Direction, row: int, col: int, k: int, m: int)
    requires
        0 < k <= m,
        fit_word(b, w, dir, row, col, k) is None,
    ensures
        fit_word(b, w, dir, row, col, m) is None,
    decreases m - k,
{
    if k < m {
        lemma_fit_stays_none(b, w, dir, row, col, k, m - 1);
    }
}

} // verus!
