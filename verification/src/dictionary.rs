//! Ibani dictionary word validator.
//!
//! A word is looked up by its plain form: lowercased, with tone marks and
//! under-dots stripped, so that a played word matches regardless of them.

use vstd::prelude::*;
use crate::rack::texts;
use vstd::string::*;
use crate::protocol::{DetailView, WordDetail};
use crate::text::{byte_len, lowercase, trimmed, to_lowercase, trim, push_char};

verus! {

/// The base letter that a character stands for once tone marks and
/// under-dots are taken off; `'\0'` for a combining mark, which is dropped.
pub open spec fn tone_base(c: char) -> char {
    if c == '\u{e1}' || c == '\u{101}' || c == '\u{e0}' || c == '\u{e2}' || c == '\u{1ce}' {
        'a'
    } else if c == '\u{e9}' || c == '\u{113}' || c == '\u{e8}' || c == '\u{ea}' || c == '\u{11b}' || c == '\u{eb}' || c == '\u{1eb9}' {
        'e'
    } else if c == '\u{ed}' || c == '\u{12b}' || c == '\u{ec}' || c == '\u{ee}' || c == '\u{1d0}' || c == '\u{1ecb}' {
        'i'
    } else if c == '\u{f3}' || c == '\u{14d}' || c == '\u{f2}' || c == '\u{f4}' || c == '\u{1d2}' || c == '\u{1ecd}' {
        'o'
    } else if c == '\u{fa}' || c == '\u{16b}' || c == '\u{f9}' || c == '\u{fb}' || c == '\u{1d4}' || c == '\u{1ee5}' {
        'u'
    } else if c == '\u{144}' {
        'n'
    } else if c == '\u{1e05}' {
        'b'
    } else if c == '\u{301}' || c == '\u{304}' || c == '\u{300}' || c == '\u{30c}' || c == '\u{302}' || c == '\u{323}' {
        '\0'
    } else {
        c
    }
}

/// Each character replaced by its base letter, combining marks and NUL characters dropped.
pub open spec fn strip_chars(s: Seq<char>) -> Seq<char>
    decreases s.len(),
{
    if s.len() == 0 {
        Seq::empty()
    } else {
        let b = tone_base(s.last());
        strip_chars(s.drop_last()) + (if b == '\0' { Seq::empty() } else { seq![b] })
    }
}

proof fn lemma_base_is_plain(c: char)
    ensures
        tone_base(tone_base(c)) == tone_base(c),
{
}

/// Stripping leaves only plain characters, which stripping again keeps:
/// what comes out holds no character with a tone mark or under-dot, no
/// combining mark and no NUL, and stripping it once more changes nothing.
pub proof fn lemma_strip_chars_plain(s: Seq<char>)
    ensures
        forall|i: int| 0 <= i < strip_chars(s).len() ==>
            tone_base(#[trigger] strip_chars(s)[i]) == strip_chars(s)[i] && strip_chars(s)[i] != '\0',
        strip_chars(strip_chars(s)) == strip_chars(s),
    decreases s.len(),
{
    if s.len() > 0 {
        let front = strip_chars(s.drop_last());
        lemma_strip_chars_plain(s.drop_last());
        let b = tone_base(s.last());
        lemma_base_is_plain(s.last());
        if b == '\0' {
            assert(strip_chars(s) == front + Seq::<char>::empty());
            assert(strip_chars(s) =~= front);
        } else {
            let t = front.push(b);
            assert(strip_chars(s) =~= t);
            assert(t.drop_last() =~= front);
            assert(strip_chars(t) == strip_chars(front) + seq![b]);
            assert(strip_chars(t) =~= t);
        }
    }
}

/// Whether `c` is a letter written with a tone mark or an under-dot on the
/// plain letter `base`: á ā à â ǎ on a; é ē è ê ě ë ẹ on e; í ī ì î ǐ ị on i;
/// ó ō ò ô ǒ ọ on o; ú ū ù û ǔ ụ on u; ń on n; ḅ on b.
pub open spec fn marked_form(c: char, base: char) -> bool {
    ||| base == 'a' && (c == '\u{e1}' || c == '\u{101}' || c == '\u{e0}' || c == '\u{e2}' || c == '\u{1ce}')
    ||| base == 'e' && (c == '\u{e9}' || c == '\u{113}' || c == '\u{e8}' || c == '\u{ea}' || c == '\u{11b}' || c == '\u{eb}' || c == '\u{1eb9}')
    ||| base == 'i' && (c == '\u{ed}' || c == '\u{12b}' || c == '\u{ec}' || c == '\u{ee}' || c == '\u{1d0}' || c == '\u{1ecb}')
    ||| base == 'o' && (c == '\u{f3}' || c == '\u{14d}' || c == '\u{f2}' || c == '\u{f4}' || c == '\u{1d2}' || c == '\u{1ecd}')
    ||| base == 'u' && (c == '\u{fa}' || c == '\u{16b}' || c == '\u{f9}' || c == '\u{fb}' || c == '\u{1d4}' || c == '\u{1ee5}')
    ||| base == 'n' && c == '\u{144}'
    ||| base == 'b' && c == '\u{1e05}'
}

/// Whether `c` is a marked letter (on any plain letter).
pub open spec fn marked_letter(c: char) -> bool {
    exists|base: char| #[trigger] marked_form(c, base)
}

/// Whether `c` is a combining tone mark (acute, macron, grave, caron,
/// circumflex) or the combining under-dot.
pub open spec fn combining_mark(c: char) -> bool {
    c == '\u{301}' || c == '\u{304}' || c == '\u{300}' || c == '\u{30c}' || c == '\u{302}' || c == '\u{323}'
}

/// Stripping reads each marked letter as the plain letter it is written on.
pub proof fn lemma_marked_letter_to_base(c: char, base: char)
    requires
        marked_form(c, base),
    ensures
        strip_chars(seq![c]) == seq![base],
{
    assert(seq![c].drop_last() =~= Seq::<char>::empty());
    assert(seq![c].last() == c);
    assert(tone_base(c) == base);
    assert(strip_chars(Seq::<char>::empty()) == Seq::<char>::empty());
    assert(Seq::<char>::empty() + seq![base] =~= seq![base]);
}

/// Stripping drops every combining mark and NUL.
pub proof fn lemma_combining_mark_dropped(c: char)
    requires
        combining_mark(c) || c == '\0',
    ensures
        strip_chars(seq![c]).len() == 0,
{
    assert(seq![c].drop_last() =~= Seq::<char>::empty());
    assert(seq![c].last() == c);
    assert(tone_base(c) == '\0');
    assert(strip_chars(Seq::<char>::empty()) == Seq::<char>::empty());
}

/// Stripping leaves no marked letter, combining mark or NUL behind.
pub proof fn lemma_stripped_has_no_marks(s: Seq<char>)
    ensures
        forall|i: int| 0 <= i < strip_chars(s).len() ==> {
            let c = #[trigger] strip_chars(s)[i];
            !marked_letter(c) && !combining_mark(c) && c != '\0'
        },
    decreases s.len(),
{
    if s.len() > 0 {
        lemma_stripped_has_no_marks(s.drop_last());
        let front = strip_chars(s.drop_last());
        let c = s.last();
        let b = tone_base(c);
        if b != '\0' {
            assert(strip_chars(s) =~= front.push(b));
            assert(!marked_letter(b)) by {
                if marked_letter(b) {
                    let base = choose|base: char| #[trigger] marked_form(b, base);
                    assert(marked_form(b, base));
                }
            }
        } else {
            assert(strip_chars(s) =~= front);
        }
        assert forall|i: int| 0 <= i < strip_chars(s).len() implies {
            let x = #[trigger] strip_chars(s)[i];
            !marked_letter(x) && !combining_mark(x) && x != '\0'
        } by {
            if i < front.len() {
                assert(strip_chars(s)[i] == front[i]);
            }
        }
    }
}

/// A word with no marked letter, combining mark or NUL is left as it is.
pub proof fn lemma_plain_word_kept(s: Seq<char>)
    requires
        forall|i: int| 0 <= i < s.len() ==> !marked_letter(#[trigger] s[i]) && !combining_mark(s[i]) && s[i] != '\0',
    ensures
        strip_chars(s) == s,
    decreases s.len(),
{
    if s.len() > 0 {
        let c = s.last();
        assert(!marked_letter(c) && !combining_mark(c) && c != '\0');
        assert(tone_base(c) == c) by {
            if tone_base(c) != c {
                if c == '\u{e1}' || c == '\u{101}' || c == '\u{e0}' || c == '\u{e2}' || c == '\u{1ce}' {
                    assert(marked_form(c, 'a'));
                } else if c == '\u{e9}' || c == '\u{113}' || c == '\u{e8}' || c == '\u{ea}' || c == '\u{11b}' || c == '\u{eb}' || c == '\u{1eb9}' {
                    assert(marked_form(c, 'e'));
                } else if c == '\u{ed}' || c == '\u{12b}' || c == '\u{ec}' || c == '\u{ee}' || c == '\u{1d0}' || c == '\u{1ecb}' {
                    assert(marked_form(c, 'i'));
                } else if c == '\u{f3}' || c == '\u{14d}' || c == '\u{f2}' || c == '\u{f4}' || c == '\u{1d2}' || c == '\u{1ecd}' {
                    assert(marked_form(c, 'o'));
                } else if c == '\u{fa}' || c == '\u{16b}' || c == '\u{f9}' || c == '\u{fb}' || c == '\u{1d4}' || c == '\u{1ee5}' {
                    assert(marked_form(c, 'u'));
                } else if c == '\u{144}' {
                    assert(marked_form(c, 'n'));
                } else if c == '\u{1e05}' {
                    assert(marked_form(c, 'b'));
                }
            }
        }
        lemma_plain_word_kept(s.drop_last());
        assert(s.drop_last() + seq![c] =~= s);
    }
}

/// The tone-free form of a word: lowercased, then stripped of tone marks and under-dots.
pub open spec fn tone_free(s: Seq<char>) -> Seq<char> {
    strip_chars(lowercase(s))
}

fn base_char(c: char) -> (b: char)
    ensures
        b == tone_base(c),
{
    match c {
        '\u{e1}' | '\u{101}' | '\u{e0}' | '\u{e2}' | '\u{1ce}' => 'a',
        '\u{e9}' | '\u{113}' | '\u{e8}' | '\u{ea}' | '\u{11b}' | '\u{eb}' | '\u{1eb9}' => 'e',
        '\u{ed}' | '\u{12b}' | '\u{ec}' | '\u{ee}' | '\u{1d0}' | '\u{1ecb}' => 'i',
        '\u{f3}' | '\u{14d}' | '\u{f2}' | '\u{f4}' | '\u{1d2}' | '\u{1ecd}' => 'o',
        '\u{fa}' | '\u{16b}' | '\u{f9}' | '\u{fb}' | '\u{1d4}' | '\u{1ee5}' => 'u',
        '\u{144}' => 'n',
        '\u{1e05}' => 'b',
        '\u{301}' | '\u{304}' | '\u{300}' | '\u{30c}' | '\u{302}' | '\u{323}' => '\0',
        other => other,
    }
}

/// What `strip_tones` gives back holds no marked letter, combining mark or
/// NUL, whatever the word.
pub proof fn lemma_tone_free_unmarked(s: Seq<char>)
    ensures
        forall|i: int| 0 <= i < tone_free(s).len() ==> {
            let c = #[trigger] tone_free(s)[i];
            !marked_letter(c) && !combining_mark(c) && c != '\0'
        },
{
    lemma_stripped_has_no_marks(lowercase(s));
}

/// Strip tone marks (accents, macrons, graves, carons) from an Ibani word;
/// under-dotted letters (ị, ẹ, ọ, ụ, ḅ) become their plain base letters.
pub fn strip_tones(s: &str) -> (res: String)
    ensures
        res@ == tone_free(s@),
{
    let lower = to_lowercase(s);
    let lower_str = lower.as_str();
    let n = lower_str.unicode_len();
    let mut out = String::new();
    let mut i: usize = 0;
    while i < n
        invariant
            n == lower_str@.len(),
            lower_str@ == lowercase(s@),
            0 <= i <= n,
            out@ == strip_chars(lower_str@.take(i as int)),
        decreases n - i,
    {
        let c = lower_str.get_char(i);
        let b = base_char(c);
        assert(lower_str@.take(i + 1).drop_last() =~= lower_str@.take(i as int));
        if b != '\0' {
            push_char(&mut out, b);
        }
        assert(out@ =~= strip_chars(lower_str@.take(i + 1)));
        i = i + 1;
    }
    assert(lower_str@.take(n as int) =~= lower_str@);
    out
}

/// The key under which a dictionary word is filed: its tone-free form.
pub open spec fn entry_key(word: Seq<char>) -> Seq<char> {
    tone_free(word)
}

/// The key under which a looked-up word is searched: tone-free, trimmed, lowercased.
pub open spec fn query_key(word: Seq<char>) -> Seq<char> {
    lowercase(trimmed(tone_free(word)))
}

/// The (word, detail) pairs that a dictionary table contributes, in row
/// order: each row's word and fields are trimmed, the word lowercased, and
/// rows whose word is then empty are skipped.
pub open spec fn table_pairs(rows: Seq<(String, String, String)>) -> Seq<(Seq<char>, DetailView)>
    decreases rows.len(),
{
    if rows.len() == 0 {
        Seq::empty()
    } else {
        let r = rows.last();
        let w = trimmed(r.0@);
        let lc = lowercase(w);
        table_pairs(rows.drop_last()) + (if lc.len() > 0 {
            seq![(lc, DetailView { word: w, pos: trimmed(r.1@), meaning: trimmed(r.2@) })]
        } else {
            Seq::empty()
        })
    }
}

/// The (word, detail) pairs that a word list contributes, one word per line:
/// each line trimmed and lowercased, empty lines skipped; the detail holds
/// the word with an empty part of speech and meaning.
pub open spec fn list_pairs(lines: Seq<String>) -> Seq<(Seq<char>, DetailView)>
    decreases lines.len(),
{
    if lines.len() == 0 {
        Seq::empty()
    } else {
        let w = lowercase(trimmed(lines.last()@));
        list_pairs(lines.drop_last()) + (if w.len() > 0 {
            seq![(w, DetailView { word: w, pos: Seq::empty(), meaning: Seq::empty() })]
        } else {
            Seq::empty()
        })
    }
}

/// The set of words among the pairs.
pub open spec fn pair_words(pairs: Seq<(Seq<char>, DetailView)>) -> Set<Seq<char>> {
    Set::new(|w: Seq<char>| exists|i: int| 0 <= i < pairs.len() && #[trigger] pairs[i].0 == w)
}

/// The details filed under `key`, in order.
pub open spec fn pair_details(pairs: Seq<(Seq<char>, DetailView)>, key: Seq<char>) -> Seq<DetailView>
    decreases pairs.len(),
{
    if pairs.len() == 0 {
        Seq::empty()
    } else {
        pair_details(pairs.drop_last(), key) + (if entry_key(pairs.last().0) == key {
            seq![pairs.last().1]
        } else {
            Seq::empty()
        })
    }
}

/// The entry under `key` of a dictionary built from the pairs.
pub open spec fn pair_entry(pairs: Seq<(Seq<char>, DetailView)>, key: Seq<char>) -> Option<Seq<DetailView>> {
    if pair_details(pairs, key).len() > 0 { Some(pair_details(pairs, key)) } else { None }
}

proof fn lemma_pair_details_found(pairs: Seq<(Seq<char>, DetailView)>, key: Seq<char>)
    ensures
        pair_details(pairs, key).len() > 0 <==> exists|i: int| 0 <= i < pairs.len() && entry_key(#[trigger] pairs[i].0) == key,
    decreases pairs.len(),
{
    if pairs.len() > 0 {
        let front = pairs.drop_last();
        lemma_pair_details_found(front, key);
        if exists|i: int| 0 <= i < front.len() && entry_key(#[trigger] front[i].0) == key {
            let i = choose|i: int| 0 <= i < front.len() && entry_key(#[trigger] front[i].0) == key;
            assert(pairs[i] == front[i]);
        }
        if exists|i: int| 0 <= i < pairs.len() && entry_key(#[trigger] pairs[i].0) == key {
            let i = choose|i: int| 0 <= i < pairs.len() && entry_key(#[trigger] pairs[i].0) == key;
            if i < pairs.len() - 1 {
                assert(front[i] == pairs[i]);
            }
        }
    }
}

/// The details of a sequence of word details.
pub open spec fn details_view(s: Seq<WordDetail>) -> Seq<DetailView> {
    s.map_values(|d: WordDetail| d@)
}

/// Word dictionary for validation.
pub struct Dictionary {
    /// The distinct words, lowercased.
    pub words: Vec<String>,
    word_map: Vec<(String, Vec<WordDetail>)>,
}

impl Dictionary {
    /// The words and their keyed entries are both free of repetitions.
    pub closed spec fn wf(&self) -> bool {
        &&& forall|i: int, j: int| 0 <= i < j < self.words@.len() ==> (#[trigger] self.words@[i])@ != (#[trigger] self.words@[j])@
        &&& forall|i: int, j: int| 0 <= i < j < self.word_map@.len() ==> (#[trigger] self.word_map@[i]).0@ != (#[trigger] self.word_map@[j]).0@
    }

    /// The set of words.
    pub closed spec fn word_set(&self) -> Set<Seq<char>> {
        Set::new(|w: Seq<char>| exists|i: int| 0 <= i < self.words@.len() && #[trigger] self.words@[i]@ == w)
    }

    /// The words in the order the dictionary holds them.
    pub closed spec fn word_list(&self) -> Seq<String> {
        self.words@
    }

    /// The words in the order the dictionary holds them (`word_list`); they
    /// are the words of `word_set`.
    pub fn all_words(&self) -> (res: &Vec<String>)
        ensures
            res@ == self.word_list(),
            forall|w: Seq<char>| self.word_set().contains(w) <==> texts(res@).contains(w),
    {
        proof {
            assert forall|w: Seq<char>| self.word_set().contains(w) <==> texts(self.words@).contains(w) by {
                if texts(self.words@).contains(w) {
                    let k = choose|k: int| 0 <= k < texts(self.words@).len() && texts(self.words@)[k] == w;
                    assert(self.words@[k]@ == w);
                }
                if self.word_set().contains(w) {
                    let k = choose|k: int| 0 <= k < self.words@.len() && #[trigger] self.words@[k]@ == w;
                    assert(texts(self.words@)[k] == w);
                }
            }
        }
        &self.words
    }

    /// The details filed under `key`, if any.
    pub closed spec fn entry(&self, key: Seq<char>) -> Option<Seq<DetailView>> {
        if exists|i: int| 0 <= i < self.word_map@.len() && #[trigger] self.word_map@[i].0@ == key {
            let i = choose|i: int| 0 <= i < self.word_map@.len() && #[trigger] self.word_map@[i].0@ == key;
            Some(details_view(self.word_map@[i].1@))
        } else {
            None
        }
    }

    /// Whether the dictionary is the one that the pairs build.
    pub closed spec fn built_from(&self, pairs: Seq<(Seq<char>, DetailView)>) -> bool {
        &&& self.wf()
        &&& self.word_set() == pair_words(pairs)
        &&& forall|key: Seq<char>| #[trigger] self.entry(key) == pair_entry(pairs, key)
    }

    /// What a dictionary built from pairs holds: it is well formed, its words
    /// are the pairs' words, and each key's entry lists the details of the
    /// pairs filed under it, in order.
    pub proof fn lemma_built_from(&self, pairs: Seq<(Seq<char>, DetailView)>)
        requires
            self.built_from(pairs),
        ensures
            self.wf(),
            self.word_set() == pair_words(pairs),
            forall|key: Seq<char>| #[trigger] self.entry(key) == pair_entry(pairs, key),
    {
    }

    /// What a loaded dictionary accepts: a word whose search key is at least
    /// two bytes long and is the tone-free form of one of its words. So tone
    /// marks and under-dots in a played word are ignored as far as its key
    /// ignores them.
    pub proof fn lemma_accepts_words(&self, pairs: Seq<(Seq<char>, DetailView)>, word: Seq<char>)
        requires
            self.built_from(pairs),
        ensures
            self.accepts(word) <==> {
                &&& query_key(word).len() > 0
                &&& byte_len(query_key(word)) >= 2
                &&& exists|x: Seq<char>| #[trigger] self.word_set().contains(x) && entry_key(x) == query_key(word)
            },
    {
        let key = query_key(word);
        lemma_pair_details_found(pairs, key);
        if exists|i: int| 0 <= i < pairs.len() && entry_key(#[trigger] pairs[i].0) == key {
            let i = choose|i: int| 0 <= i < pairs.len() && entry_key(#[trigger] pairs[i].0) == key;
            assert(pair_words(pairs).contains(pairs[i].0));
            assert(self.word_set().contains(pairs[i].0));
        }
        if exists|x: Seq<char>| #[trigger] self.word_set().contains(x) && entry_key(x) == key {
            let x = choose|x: Seq<char>| #[trigger] self.word_set().contains(x) && entry_key(x) == key;
            assert(pair_words(pairs).contains(x));
            let i = choose|i: int| 0 <= i < pairs.len() && #[trigger] pairs[i].0 == x;
            assert(entry_key(pairs[i].0) == key);
        }
    }

    /// An empty dictionary.
    fn empty() -> (d: Self)
        ensures
            d.built_from(Seq::empty()),
    {
        let d = Dictionary { words: Vec::new(), word_map: Vec::new() };
        assert(d.word_set() =~= pair_words(Seq::empty()));
        d
    }

    /// Files one more (word, detail) pair.
    fn add_pair(&mut self, word: String, detail: WordDetail, Ghost(pairs): Ghost<Seq<(Seq<char>, DetailView)>>)
        requires
            old(self).built_from(pairs),
        ensures
            final(self).built_from(pairs.push((word@, detail@))),
    {
        let ghost new_pairs = pairs.push((word@, detail@));
        let ghost old_self = *self;
        let key = strip_tones(word.as_str());
        // the word set
        let mut found = false;
        let mut i: usize = 0;
        while i < self.words.len()
            invariant
                0 <= i <= self.words@.len(),
                !found ==> forall|j: int| 0 <= j < i ==> self.words@[j]@ != word@,
                found ==> exists|j: int| 0 <= j < self.words@.len() && self.words@[j]@ == word@,
            decreases self.words@.len() - i,
        {
            if self.words[i] == word {
                found = true;
            }
            i = i + 1;
        }
        if !found {
            self.words.push(word.clone());
        }
        assert(self.word_set() =~= pair_words(new_pairs)) by {
            assert forall|w: Seq<char>| self.word_set().contains(w) <==> pair_words(new_pairs).contains(w) by {
                if pair_words(pairs).contains(w) {
                    let k = choose|k: int| 0 <= k < pairs.len() && #[trigger] pairs[k].0 == w;
                    assert(new_pairs[k].0 == w);
                }
                if pair_words(new_pairs).contains(w) {
                    let k = choose|k: int| 0 <= k < new_pairs.len() && #[trigger] new_pairs[k].0 == w;
                    if k < pairs.len() {
                        assert(pairs[k].0 == w);
                    }
                }
                if self.word_set().contains(w) {
                    let k = choose|k: int| 0 <= k < self.words@.len() && #[trigger] self.words@[k]@ == w;
                    if k < old_self.words@.len() {
                        assert(old_self.words@[k]@ == w);
                        assert(old_self.word_set().contains(w));
                    } else {
                        assert(new_pairs[pairs.len() as int].0 == w);
                    }
                }
                if old_self.word_set().contains(w) {
                    let k = choose|k: int| 0 <= k < old_self.words@.len() && #[trigger] old_self.words@[k]@ == w;
                    assert(self.words@[k]@ == w);
                }
                if w == word@ {
                    if found {
                        let k = choose|k: int| 0 <= k < self.words@.len() && self.words@[k]@ == word@;
                        assert(self.words@[k]@ == w);
                    } else {
                        assert(self.words@[self.words@.len() - 1]@ == w);
                    }
                }
            }
        }
        // the keyed entries
        let mut k: usize = 0;
        let mut at: Option<usize> = None;
        while k < self.word_map.len()
            invariant
                0 <= k <= self.word_map@.len(),
                self.word_map@ == old_self.word_map@,
                at is None ==> forall|j: int| 0 <= j < k ==> self.word_map@[j].0@ != key@,
                at matches Some(a) ==> a < self.word_map@.len() && self.word_map@[a as int].0@ == key@,
            decreases self.word_map@.len() - k,
        {
            if at.is_none() && self.word_map[k].0 == key {
                at = Some(k);
            }
            k = k + 1;
        }
        match at {
            Some(a) => {
                let ghost before = self.word_map@;
                let mut entry_details = Vec::new();
                std::mem::swap(&mut entry_details, &mut self.word_map[a].1);
                entry_details.push(detail);
                std::mem::swap(&mut entry_details, &mut self.word_map[a].1);
                assert(self.word_map@.len() == before.len());
                assert forall|j: int| 0 <= j < self.word_map@.len() && j != a implies #[trigger] self.word_map@[j] == before[j] by {}
                assert(self.word_map@[a as int].0 == before[a as int].0);
                assert(self.word_map@[a as int].1@ == before[a as int].1@.push(detail));
            },
            None => {
                let mut v = Vec::new();
                v.push(detail);
                self.word_map.push((key, v));
            },
        }
        assert(self.wf()) by {
            assert forall|i: int, j: int| 0 <= i < j < self.words@.len() implies self.words@[i]@ != self.words@[j]@ by {
                if j == old_self.words@.len() {
                    assert(old_self.words@[i]@ != word@);
                } else {
                    assert(old_self.words@[i] == self.words@[i]);
                    assert(old_self.words@[j] == self.words@[j]);
                }
            }
            assert forall|i: int, j: int| 0 <= i < j < self.word_map@.len() implies self.word_map@[i].0@ != self.word_map@[j].0@ by {
                if at is None && j == old_self.word_map@.len() {
                    assert(old_self.word_map@[i].0@ != key@);
                } else {
                    assert(old_self.word_map@[i].0 == self.word_map@[i].0);
                    assert(old_self.word_map@[j].0 == self.word_map@[j].0);
                }
            }
        }
        assert forall|q: Seq<char>| #[trigger] self.entry(q) == pair_entry(new_pairs, q) by {
            assert(new_pairs.drop_last() =~= pairs);
            assert(new_pairs.last() == (word@, detail@));
            assert(old_self.entry(q) == pair_entry(pairs, q));
            if q == key@ {
                match at {
                    Some(a) => {
                        assert(self.word_map@[a as int].0@ == q);
                        assert(old_self.word_map@[a as int].0@ == q);
                        let oi = choose|i: int| 0 <= i < old_self.word_map@.len() && #[trigger] old_self.word_map@[i].0@ == q;
                        assert(oi == a);
                        let ni = choose|i: int| 0 <= i < self.word_map@.len() && #[trigger] self.word_map@[i].0@ == q;
                        assert(ni == a);
                        assert(details_view(self.word_map@[a as int].1@) =~= details_view(old_self.word_map@[a as int].1@).push(detail@));
                    },
                    None => {
                        let last = self.word_map@.len() - 1;
                        assert(self.word_map@[last].0@ == q);
                        let ni = choose|i: int| 0 <= i < self.word_map@.len() && #[trigger] self.word_map@[i].0@ == q;
                        assert(ni == last);
                        assert(details_view(self.word_map@[last].1@) =~= seq![detail@]);
                        assert(pair_details(pairs, q).len() == 0);
                        assert(pair_details(new_pairs, q) =~= seq![detail@]);
                    },
                }
            } else {
                assert(pair_details(new_pairs, q) == pair_details(pairs, q));
                if exists|i: int| 0 <= i < self.word_map@.len() && #[trigger] self.word_map@[i].0@ == q {
                    let ni = choose|i: int| 0 <= i < self.word_map@.len() && #[trigger] self.word_map@[i].0@ == q;
                    assert(old_self.word_map@[ni].0@ == q);
                    let oi = choose|i: int| 0 <= i < old_self.word_map@.len() && #[trigger] old_self.word_map@[i].0@ == q;
                    assert(oi == ni);
                    assert(self.word_map@[ni] == old_self.word_map@[ni]);
                } else {
                    if exists|i: int| 0 <= i < old_self.word_map@.len() && #[trigger] old_self.word_map@[i].0@ == q {
                        let oi = choose|i: int| 0 <= i < old_self.word_map@.len() && #[trigger] old_self.word_map@[i].0@ == q;
                        assert(self.word_map@[oi].0@ == q);
                    }
                }
            }
        }
    }

    /// Builds the dictionary from the rows (word, part of speech, meaning) of
    /// a dictionary table.
    pub fn from_table_rows(rows: Vec<(String, String, String)>) -> (d: Self)
        ensures
            d.built_from(table_pairs(rows@)),
            d.wf(),
    {
        let mut d = Self::empty();
        let mut i: usize = 0;
        while i < rows.len()
            invariant
                0 <= i <= rows@.len(),
                d.built_from(table_pairs(rows@.take(i as int))),
            decreases rows@.len() - i,
        {
            let ghost pairs = table_pairs(rows@.take(i as int));
            assert(rows@.take(i + 1).drop_last() =~= rows@.take(i as int));
            assert(rows@.take(i + 1).last() == rows@[i as int]);
            let word_trimmed = trim(rows[i].0.as_str());
            let cleaned_lower = to_lowercase(word_trimmed);
            if cleaned_lower.unicode_len() != 0 {
                let detail = WordDetail {
                    word: word_trimmed.to_owned(),
                    pos: trim(rows[i].1.as_str()).to_owned(),
                    meaning: trim(rows[i].2.as_str()).to_owned(),
                };
                assert(table_pairs(rows@.take(i + 1)) =~= pairs.push((cleaned_lower@, detail@)));
                d.add_pair(cleaned_lower, detail, Ghost(pairs));
            } else {
                assert(table_pairs(rows@.take(i + 1)) =~= pairs);
            }
            i = i + 1;
        }
        assert(rows@.take(rows@.len() as int) =~= rows@);
        d
    }

    /// Builds the dictionary from a word list, one word per line.
    pub fn from_word_lines(lines: Vec<String>) -> (d: Self)
        ensures
            d.built_from(list_pairs(lines@)),
            d.wf(),
    {
        let mut d = Self::empty();
        let mut i: usize = 0;
        while i < lines.len()
            invariant
                0 <= i <= lines@.len(),
                d.built_from(list_pairs(lines@.take(i as int))),
            decreases lines@.len() - i,
        {
            let ghost pairs = list_pairs(lines@.take(i as int));
            assert(lines@.take(i + 1).drop_last() =~= lines@.take(i as int));
            assert(lines@.take(i + 1).last() == lines@[i as int]);
            let word = to_lowercase(trim(lines[i].as_str()));
            if word.unicode_len() != 0 {
                let detail = WordDetail { word: word.clone(), pos: String::new(), meaning: String::new() };
                assert(list_pairs(lines@.take(i + 1)) =~= pairs.push((word@, detail@)));
                d.add_pair(word, detail, Ghost(pairs));
            } else {
                assert(list_pairs(lines@.take(i + 1)) =~= pairs);
            }
            i = i + 1;
        }
        assert(lines@.take(lines@.len() as int) =~= lines@);
        d
    }

    /// Whether the dictionary accepts a played word: its search key is at
    /// least two bytes long and has an entry.
    pub open spec fn accepts(&self, word: Seq<char>) -> bool {
        &&& query_key(word).len() > 0
        &&& byte_len(query_key(word)) >= 2
        &&& self.entry(query_key(word)) is Some
    }

    /// Check if a word is valid in the Ibani dictionary.
    pub fn is_valid_word(&self, word: &str) -> (res: bool)
        requires
            self.wf(),
        ensures
            res == self.accepts(word@),
    {
        let stripped = strip_tones(word);
        let cleaned = to_lowercase(trim(stripped.as_str()));
        if cleaned.unicode_len() == 0 || cleaned.as_str().len() < 2 {
            return false;
        }
        self.find_key(&cleaned).is_some()
    }

    /// The position of the entry filed under `key`.
    fn find_key(&self, key: &String) -> (res: Option<usize>)
        requires
            self.wf(),
        ensures
            match res {
                Some(i) => i < self.word_map@.len() && self.word_map@[i as int].0@ == key@
                    && self.entry(key@) == Some(details_view(self.word_map@[i as int].1@)),
                None => self.entry(key@) is None,
            },
    {
        let mut i: usize = 0;
        while i < self.word_map.len()
            invariant
                self.wf(),
                0 <= i <= self.word_map@.len(),
                forall|j: int| 0 <= j < i ==> self.word_map@[j].0@ != key@,
            decreases self.word_map@.len() - i,
        {
            if self.word_map[i].0 == *key {
                proof {
                    let c = choose|j: int| 0 <= j < self.word_map@.len() && #[trigger] self.word_map@[j].0@ == key@;
                    assert(self.word_map@[i as int].0@ == key@);
                    assert(self.word_map@[c].0@ == key@);
                    if c > i as int {
                        assert(self.word_map@[i as int].0@ != self.word_map@[c].0@);
                    }
                    assert(c == i);
                }
                return Some(i);
            }
            i = i + 1;
        }
        None
    }

    /// Lookup definitions for a word.
    pub fn lookup(&self, word: &str) -> (res: Option<Vec<WordDetail>>)
        requires
            self.wf(),
        ensures
            match res {
                Some(v) => self.entry(query_key(word@)) == Some(details_view(v@)),
                None => self.entry(query_key(word@)) is None,
            },
    {
        let stripped = strip_tones(word);
        let cleaned = to_lowercase(trim(stripped.as_str()));
        match self.find_key(&cleaned) {
            Some(i) => {
                let v = self.word_map[i].1.clone();
                assert(details_view(v@) =~= details_view(self.word_map@[i as int].1@)) by {
                    assert forall|j: int| 0 <= j < v@.len() implies v@[j] == self.word_map@[i as int].1@[j] by {
                        assert(cloned::<WordDetail>(self.word_map@[i as int].1@[j], v@[j]));
                    }
                }
                Some(v)
            },
            None => None,
        }
    }

    /// Get total number of loaded words.
    pub fn size(&self) -> (n: usize)
        requires
            self.wf(),
        ensures
            n == self.word_set().len(),
    {
        proof { self.lemma_word_count(); }
        self.words.len()
    }

    proof fn lemma_word_count(&self)
        requires
            self.wf(),
        ensures
            self.word_set().len() == self.words@.len(),
    {
        let views = self.words@.map_values(|s: String| s@);
        assert(views.no_duplicates()) by {
            assert forall|i: int, j: int| 0 <= i < views.len() && 0 <= j < views.len() && i != j implies views[i] != views[j] by {
                if i < j {} else {}
            }
        }
        assert(self.word_set() =~= views.to_set()) by {
            assert forall|w: Seq<char>| self.word_set().contains(w) <==> views.to_set().contains(w) by {
                if views.to_set().contains(w) {
                    let k = choose|k: int| 0 <= k < views.len() && views[k] == w;
                    assert(self.words@[k]@ == w);
                }
                if self.word_set().contains(w) {
                    let k = choose|k: int| 0 <= k < self.words@.len() && #[trigger] self.words@[k]@ == w;
                    assert(views[k] == w);
                }
            }
        }
        views.unique_seq_to_set();
    }
}

} // verus!
