//! Pronounceable room codes drawn from a first-order model of a word list.

use itertools::Itertools;
use vstd::prelude::*;
use vstd::string::StrSliceExecFns;
use rand::rngs::StdRng;
use crate::random::{alphanumeric, below, pick};

verus! {

/// Whether `c` is an ASCII letter or digit.
pub open spec fn is_alnum(c: char) -> bool {
    ('a' <= c && c <= 'z') || ('A' <= c && c <= 'Z') || ('0' <= c && c <= '9')
}

/// Whether `c` may stand in a room code: an upper-case ASCII letter or a digit.
pub open spec fn is_code_char(c: char) -> bool {
    ('A' <= c && c <= 'Z') || ('0' <= c && c <= '9')
}

/// The code character that stands for `c`, if `c` is an ASCII letter or digit.
pub open spec fn code_char(c: char) -> char {
    if 'a' <= c && c <= 'z' {
        ((c as u32) - 32) as char
    } else {
        c
    }
}

/// Upper-cases an ASCII letter or digit.
pub fn to_code_char(c: char) -> (r: char)
    requires
        is_alnum(c),
    ensures
        r == code_char(c),
        is_code_char(r),
{
    if 'a' <= c && c <= 'z' {
        let n = (c as u32 - 32) as u8;
        n as char
    } else {
        c
    }
}

/// Number of rows of the transition table: one per ASCII character, row 0 also
/// standing for the start of a word.
pub const TABLE_ROWS: usize = 128;

/// Row of the transition table that holds what follows `k`: row 0 for the
/// start of a word, else the character's code.
pub open spec fn slot(k: Option<char>) -> int {
    match k {
        None => 0,
        Some(c) => (c as u32) as int,
    }
}

/// Whether every character of `w` is ASCII.
pub open spec fn is_ascii_word(w: Seq<char>) -> bool {
    forall|i: int| 0 <= i < w.len() ==> (w[i] as u32) < 128
}

/// A word between two word boundaries (`None`).
pub open spec fn bracketed(w: Seq<char>) -> Seq<Option<char>> {
    seq![None::<char>] + w.map_values(|c: char| Some(c)) + seq![None::<char>]
}

/// What the first `n` neighbouring pairs of `b` add to row `k`, in order.
pub open spec fn followers_upto(b: Seq<Option<char>>, n: int, k: int) -> Seq<Option<char>>
    decreases n,
{
    if n <= 0 {
        Seq::empty()
    } else {
        let p = followers_upto(b, n - 1, k);
        if slot(b[n - 1]) == k {
            p.push(b[n])
        } else {
            p
        }
    }
}

/// What the word `w` adds to row `k` of the transition table.
pub open spec fn followers(w: Seq<char>, k: int) -> Seq<Option<char>> {
    followers_upto(bracketed(w), w.len() + 1 as int, k)
}

/// The table `t` after learning the word `w`.
pub open spec fn with_word(t: Seq<Seq<Option<char>>>, w: Seq<char>) -> Seq<Seq<Option<char>>> {
    Seq::new(t.len(), |k: int| t[k] + followers(w, k))
}

/// The table that has learnt nothing.
pub open spec fn empty_table() -> Seq<Seq<Option<char>>> {
    Seq::new(TABLE_ROWS as nat, |k: int| Seq::<Option<char>>::empty())
}

/// The table learnt from the words `ws`, in order.
pub open spec fn model_of(ws: Seq<Seq<char>>) -> Seq<Seq<Option<char>>>
    decreases ws.len(),
{
    if ws.len() == 0 {
        empty_table()
    } else {
        with_word(model_of(ws.drop_last()), ws.last())
    }
}

/// Relies on `itertools::Itertools::tuple_windows`: each pair of neighbouring
/// items, in order.
#[verifier::external_body]
fn neighbours(s: &Vec<Option<char>>) -> (r: Vec<(Option<char>, Option<char>)>)
    ensures
        r@.len() == if s@.len() == 0 { 0 } else { s@.len() - 1 },
        forall|i: int| 0 <= i < r@.len() ==> #[trigger] r@[i] == (s@[i], s@[i + 1]),
{
    s.iter().copied().tuple_windows().collect()
}

/// First-order model of a word list: for each character, and for the start of
/// a word, the characters seen to follow it, `None` marking the end of a word.
#[derive(Debug)]
pub struct FunnyWords {
    next_letter: Vec<Vec<Option<char>>>,
}

impl View for FunnyWords {
    type V = Seq<Seq<Option<char>>>;

    closed spec fn view(&self) -> Seq<Seq<Option<char>>> {
        Seq::new(self.next_letter@.len(), |k: int| self.next_letter@[k]@)
    }
}

impl Default for FunnyWords {
    fn default() -> (r: Self)
        ensures
            r.wf(),
            r@ == empty_table(),
    {
        let mut next_letter: Vec<Vec<Option<char>>> = Vec::new();
        let mut i: usize = 0;
        while i < TABLE_ROWS
            invariant
                i <= TABLE_ROWS,
                next_letter@.len() == i,
                forall|k: int| 0 <= k < i ==> (#[trigger] next_letter@[k])@.len() == 0,
            decreases TABLE_ROWS - i,
        {
            next_letter.push(Vec::new());
            i += 1;
        }
        let r = FunnyWords { next_letter };
        assert forall|k: int| 0 <= k < TABLE_ROWS implies #[trigger] r@[k] =~= empty_table()[k] by {
            assert(r.next_letter@[k]@.len() == 0);
        }
        assert(r@ =~= empty_table());
        r
    }
}

impl FunnyWords {
    /// The table has a row per ASCII character and holds ASCII characters only.
    pub closed spec fn wf(&self) -> bool {
        &&& self.next_letter@.len() == TABLE_ROWS
        &&& forall|k: int, j: int|
            0 <= k < TABLE_ROWS && 0 <= j < self.next_letter@[k]@.len()
                ==> (#[trigger] self.next_letter@[k]@[j] matches Some(c) ==> (c as u32) < 128)
    }

    /// Learns the word `word`: for each character, and for the start of the
    /// word, what follows it (`None` after the last character).
    pub fn push(&mut self, word: &str)
        requires
            old(self).wf(),
            is_ascii_word(word@),
        ensures
            final(self).wf(),
            final(self)@ == with_word(old(self)@, word@),
            final(self)@[0].len() > 0,
    {
        let n = word.unicode_len();
        let mut seq: Vec<Option<char>> = Vec::new();
        seq.push(None);
        let mut i: usize = 0;
        while i < n
            invariant
                n == word@.len(),
                i <= n,
                seq@ == seq![None::<char>] + word@.take(i as int).map_values(|c: char| Some(c)),
            decreases n - i,
        {
            let c = word.get_char(i);
            seq.push(Some(c));
            proof {
                assert(word@.take(i + 1) =~= word@.take(i as int).push(c));
            }
            assert(seq@ =~= seq![None::<char>] + word@.take(i + 1).map_values(|c: char| Some(c)));
            i += 1;
        }
        seq.push(None);
        let ghost b = bracketed(word@);
        assert(word@.take(n as int) =~= word@);
        assert(seq@ =~= b);
        let windows = neighbours(&seq);
        let mut j: usize = 0;
        while j < windows.len()
            invariant
                windows@.len() == n + 1,
                forall|t: int| 0 <= t < windows@.len() ==> #[trigger] windows@[t] == (b[t], b[t + 1]),
                b == bracketed(word@),
                is_ascii_word(word@),
                b.len() == n + 2,
                j <= windows@.len(),
                self.wf(),
                self@.len() == old(self)@.len(),
                forall|k: int| 0 <= k < TABLE_ROWS ==> #[trigger] self@[k] == old(self)@[k] + followers_upto(b, j as int, k),
            decreases windows@.len() - j,
        {
            let (key, next) = windows[j];
            assert(windows@[j as int] == (b[j as int], b[j + 1]));
            let idx: usize = match key {
                None => 0,
                Some(c) => {
                    assert(b[j as int] == Some(word@[j - 1]));
                    c as u32 as usize
                },
            };
            assert(idx as int == slot(b[j as int]));
            assert(next matches Some(c) ==> (c as u32) < 128) by {
                if j + 1 < n + 1 {
                    assert(b[j + 1] == Some(word@[j as int]));
                }
            }
            let ghost before = self@;
            self.next_letter[idx].push(next);
            j += 1;
            assert forall|k: int| 0 <= k < TABLE_ROWS implies #[trigger] self@[k] == old(self)@[k] + followers_upto(b, j as int, k) by {
                if k == idx {
                    assert(self@[k] =~= before[k].push(next));
                    assert(old(self)@[k] + followers_upto(b, j as int, k) =~= (old(self)@[k] + followers_upto(b, j - 1, k)).push(next));
                } else {
                    assert(self@[k] == before[k]);
                }
            }
        }
        assert(self@ =~= with_word(old(self)@, word@));
        assert(followers_upto(b, 0, 0) =~= Seq::empty());
        assert(followers_upto(b, 1, 0) =~= seq![b[1]]);
        proof {
            lemma_followers_prefix(b, 1, n + 1, 0);
        }
    }
}

/// What the first `m` pairs add to a row begins what the first `n >= m` add.
proof fn lemma_followers_prefix(b: Seq<Option<char>>, m: int, n: int, k: int)
    requires
        0 <= m <= n,
    ensures
        followers_upto(b, m, k).len() <= followers_upto(b, n, k).len(),
        followers_upto(b, n, k).take(followers_upto(b, m, k).len() as int) == followers_upto(b, m, k),
    decreases n - m,
{
    if m < n {
        lemma_followers_prefix(b, m, n - 1, k);
        let p = followers_upto(b, n - 1, k);
        let l = followers_upto(b, m, k).len() as int;
        if slot(b[n - 1]) == k {
            assert(p.push(b[n]).take(l) =~= p.take(l));
        }
    } else {
        assert(followers_upto(b, n, k).take(followers_upto(b, n, k).len() as int) =~= followers_upto(b, n, k));
    }
}

impl FunnyWords {
    /// The row of what follows the character of code `i` (row 0: the start
    /// of a word).
    fn row(&self, i: usize) -> (r: &Vec<Option<char>>)
        requires
            self.wf(),
            i < TABLE_ROWS,
        ensures
            r@ == self@[i as int],
    {
        &self.next_letter[i]
    }

    /// What has been seen to follow `key` (`None`: the start of a word).
    pub fn followers_of(&self, key: Option<char>) -> (r: &Vec<Option<char>>)
        requires
            self.wf(),
            0 <= slot(key) < TABLE_ROWS,
        ensures
            r@ == self@[slot(key)],
    {
        match key {
            None => self.row(0),
            Some(c) => self.row(c as u32 as usize),
        }
    }

    /// Learns each of `words`, in order.
    pub fn from_words(words: &Vec<String>) -> (r: FunnyWords)
        requires
            forall|i: int| 0 <= i < words@.len() ==> is_ascii_word(#[trigger] words@[i]@),
        ensures
            r.wf(),
            r@ == model_of(words@.map_values(|w: String| w@)),
    {
        let mut r = FunnyWords::default();
        let mut i: usize = 0;
        while i < words.len()
            invariant
                i <= words@.len(),
                forall|t: int| 0 <= t < words@.len() ==> is_ascii_word(#[trigger] words@[t]@),
                r.wf(),
                r@ == model_of(words@.take(i as int).map_values(|w: String| w@)),
            decreases words@.len() - i,
        {
            r.push(words[i].as_str());
            let ghost ws = words@.take(i + 1).map_values(|w: String| w@);
            assert(ws.drop_last() =~= words@.take(i as int).map_values(|w: String| w@));
            i += 1;
        }
        assert(words@.take(words@.len() as int) =~= words@);
        r
    }
}

/// Relies on `String::push`: the character is appended.
pub assume_specification[ String::push ](s: &mut String, ch: char)
    ensures
        final(s)@ == old(s)@.push(ch),
;

/// Entropy is counted in thousandths: the chance, out of this, that a step
/// ignores the model.
pub const ENTROPY_SCALE: u16 = 1000;

/// Whether `k` may be the character whose row a step from `current` consults:
/// `current` itself, or else a first letter of a learnt word.
pub open spec fn is_candidate(m: Seq<Seq<Option<char>>>, current: Option<char>, k: char) -> bool {
    match current {
        Some(c) => k == c,
        None => m[0].contains(Some(k)),
    }
}

/// Whether a step from `current` may follow the model to `r`: `r` is the code
/// character of a learnt successor of a candidate.
pub open spec fn modelled_step(m: Seq<Seq<Option<char>>>, entropy: u16, current: Option<char>, r: char) -> bool {
    &&& entropy < ENTROPY_SCALE
    &&& exists|k: char, c: char|
        #![trigger m[slot(Some(k))].contains(Some(c)), code_char(c)]
        is_candidate(m, current, k) && m[slot(Some(k))].contains(Some(c)) && is_alnum(c) && r
            == code_char(c)
}

/// Whether every entry of a row is a letter or digit, and there is one.
pub open spec fn fully_modelled(row: Seq<Option<char>>) -> bool {
    &&& row.len() > 0
    &&& forall|j: int| 0 <= j < row.len() ==> (#[trigger] row[j] matches Some(c) && is_alnum(c))
}

/// Whether a step from `current` may end in a random letter or digit.
pub open spec fn may_fall_back(m: Seq<Seq<Option<char>>>, entropy: u16, current: Option<char>) -> bool {
    ||| entropy > 0
    ||| (current is None && (m[0].len() == 0 || m[0].contains(None)))
    ||| exists|k: char| is_candidate(m, current, k) && !fully_modelled(#[trigger] m[slot(Some(k))])
}

/// The characters that one step from `current` may give.
pub open spec fn step_allows(m: Seq<Seq<Option<char>>>, entropy: u16, current: Option<char>, r: char) -> bool {
    &&& is_code_char(r)
    &&& modelled_step(m, entropy, current, r) || may_fall_back(m, entropy, current)
}

/// At full entropy the model plays no part: no step follows it, and a step
/// may give any code character, whatever was learnt.
pub proof fn lemma_full_entropy_ignores_model(m: Seq<Seq<Option<char>>>, current: Option<char>, r: char)
    ensures
        !modelled_step(m, ENTROPY_SCALE, current, r),
        step_allows(m, ENTROPY_SCALE, current, r) == is_code_char(r),
{
}

/// Draws a code one character at a time from a learnt model.
pub struct Chain<'a> {
    funny_words: &'a FunnyWords,
    entropy: u16,
    current: Option<char>,
}

impl<'a> Chain<'a> {
    /// The model it draws from.
    pub closed spec fn words(&self) -> &'a FunnyWords {
        self.funny_words
    }

    /// Its entropy, in thousandths.
    pub closed spec fn entropy(&self) -> u16 {
        self.entropy
    }

    /// The character it gave last, if any.
    pub closed spec fn current(&self) -> Option<char> {
        self.current
    }

    /// The model is well formed and the last character is a code character.
    pub closed spec fn wf(&self) -> bool {
        &&& self.funny_words.wf()
        &&& self.current matches Some(c) ==> is_code_char(c)
    }

    /// A fresh chain, before its first character.
    pub fn new(funny_words: &'a FunnyWords, entropy: u16) -> (r: Self)
        requires
            funny_words.wf(),
        ensures
            r.wf(),
            r.words() == funny_words,
            r.entropy() == entropy,
            r.current() is None,
    {
        Chain { funny_words, entropy, current: None }
    }

    /// Draws the next character: a learnt successor of the last one (of a
    /// first letter, at the start), or with chance `entropy` in a thousand,
    /// or where the model has none, a random letter or digit.
    pub fn next(&mut self, rng: &mut StdRng) -> (r: char)
        requires
            old(self).wf(),
        ensures
            final(self).wf(),
            final(self).words() == old(self).words(),
            final(self).entropy() == old(self).entropy(),
            final(self).current() == Some(r),
            step_allows(old(self).words()@, old(self).entropy(), old(self).current(), r),
    {
        let words = self.funny_words;
        let ghost m = words@;
        let cand: Option<char> = match self.current {
            Some(c) => Some(c),
            None => match pick(rng, words.row(0)) {
                Some(Some(k)) => Some(k),
                _ => None,
            },
        };
        let kept: Option<char> = match cand {
            Some(k) => {
                let roll = below(rng, ENTROPY_SCALE);
                if roll >= self.entropy {
                    Some(k)
                } else {
                    None
                }
            },
            None => None,
        };
        let follow: Option<Option<char>> = match kept {
            Some(k) => {
                assert(is_candidate(m, self.current, k));
                proof {
                    if self.current is None {
                        let j = choose|j: int| 0 <= j < m[0].len() && m[0][j] == Some(k);
                        assert(words.next_letter@[0]@[j] == Some(k));
                    }
                }
                let f = pick(rng, words.row(k as u32 as usize));
                assert(f matches Some(Some(c)) ==> m[slot(Some(k))].contains(Some(c)));
                if !(f matches Some(Some(c)) && is_alnum_exec(c)) {
                    assert(!fully_modelled(m[slot(Some(k))]));
                }
                f
            },
            None => None,
        };
        let r = match follow {
            Some(Some(c)) if is_alnum_exec(c) => to_code_char(c),
            _ => {
                let b = alphanumeric(rng);
                to_code_char(b as char)
            },
        };
        self.current = Some(r);
        r
    }
}

/// Whether `c` is an ASCII letter or digit.
fn is_alnum_exec(c: char) -> (r: bool)
    ensures
        r == is_alnum(c),
{
    ('a' <= c && c <= 'z') || ('A' <= c && c <= 'Z') || ('0' <= c && c <= '9')
}

/// The character before position `i` of a code, if any.
pub open spec fn before(code: Seq<char>, i: int) -> Option<char> {
    if i == 0 {
        None
    } else {
        Some(code[i - 1])
    }
}

/// Draws a code of `length` characters from a fresh chain: each one is a
/// letter or digit that a step from the one before may give.
pub fn generate_code(funny_words: &FunnyWords, entropy: u16, length: usize, rng: &mut StdRng) -> (r: String)
    requires
        funny_words.wf(),
    ensures
        r@.len() == length,
        forall|i: int| 0 <= i < length ==> is_code_char(#[trigger] r@[i]),
        forall|i: int| 0 <= i < length ==> step_allows(funny_words@, entropy, before(r@, i), #[trigger] r@[i]),
{
    let mut chain = Chain::new(funny_words, entropy);
    let mut code = String::new();
    let mut i: usize = 0;
    while i < length
        invariant
            i <= length,
            chain.wf(),
            chain.words() == funny_words,
            chain.entropy() == entropy,
            code@.len() == i,
            chain.current() == before(code@, i as int),
            forall|t: int| 0 <= t < i ==> step_allows(funny_words@, entropy, before(code@, t), #[trigger] code@[t]),
        decreases length - i,
    {
        let c = chain.next(rng);
        let ghost prev = code@;
        code.push(c);
        assert forall|t: int| 0 <= t < i + 1 implies step_allows(funny_words@, entropy, before(code@, t), #[trigger] code@[t]) by {
            if t < i {
                assert(code@[t] == prev[t]);
                assert(before(code@, t) == before(prev, t));
            }
        }
        i += 1;
    }
    code
}

} // verus!
