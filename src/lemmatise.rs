//! The lexical normaliser: free text to canonical word forms.
//!
//! Text is lower-cased, every character that is neither an ASCII letter or
//! digit nor white space becomes a single space (so punctuation never glues
//! two words together), the result is split at white space, and each word is
//! replaced by its lemma when the lemma table lists one.
//!
//! Lemma tables are read from word lists whose lines look like
//! `lemma/tags -> form, form, ...`: a lemma (no `/`), optional tags without
//! `-` or `>`, the arrow, and comma-separated word forms.

use crate::keyed::StrMap;
use crate::text::{
    chars_of, split_commas, split_words, split_ws, trim_ws, trimmed, trimmed_comma_pieces,
};
use vstd::prelude::*;

verus! {

proof fn lemma_next_slash_bounded(s: Seq<char>, a: int)
    requires
        0 <= a,
    ensures
        a <= next_slash(s, a) <= s.len() || (a > s.len() && next_slash(s, a) == s.len()),
    decreases s.len() - a,
{
    if a < s.len() && s[a] != '/' {
        lemma_next_slash_bounded(s, a + 1);
    }
}

/// The lower-case form of a text.
pub uninterp spec fn lower_of(s: Seq<char>) -> Seq<char>;

/// Relies on str::to_lowercase: the lower-case form of the text, a
/// function of its characters alone.
#[verifier::external_body]
fn lowercase(s: &str) -> (r: String)
    ensures
        r@ == lower_of(s@),
{
    s.to_lowercase()
}

/// Characters kept by punctuation stripping: ASCII letters and digits and
/// white space.
pub open spec fn is_kept(c: char) -> bool {
    ||| ('a' <= c && c <= 'z')
    ||| ('A' <= c && c <= 'Z')
    ||| ('0' <= c && c <= '9')
    ||| crate::text::is_white_space(c)
}

/// `s` with every character that is not kept replaced by a space.
pub open spec fn strip_punctuation(s: Seq<char>) -> Seq<char> {
    s.map_values(|c: char| if is_kept(c) { c } else { ' ' })
}

/// Relies on regex::Regex::replace_all with the class `[^a-zA-Z0-9\s]`
/// (`\s` being Unicode White_Space) and the replacement " ": each character
/// outside the class's complement is one match and becomes one space.
#[verifier::external_body]
fn replace_punctuation(s: &str) -> (r: String)
    ensures
        r@ == strip_punctuation(s@),
{
    regex::Regex::new(r"[^a-zA-Z0-9\s]").unwrap().replace_all(s, " ").into_owned()
}

/// The canonical form of word `w` under lemma map `m`.
pub open spec fn canonical(m: Map<Seq<char>, Seq<char>>, w: Seq<char>) -> Seq<char> {
    if m.contains_key(w) {
        m[w]
    } else {
        w
    }
}

/// The canonical terms of `text`, in order, duplicates kept.
pub open spec fn normalize(m: Map<Seq<char>, Seq<char>>, text: Seq<char>) -> Seq<Seq<char>> {
    split_ws(strip_punctuation(lower_of(text))).map_values(|w: Seq<char>| canonical(m, w))
}

/// `m` after mapping each of `words`, in order, to `lemma`.
pub open spec fn insert_words(m: Map<Seq<char>, Seq<char>>, words: Seq<Seq<char>>, lemma: Seq<char>) -> Map<
    Seq<char>,
    Seq<char>,
>
    decreases words.len(),
{
    if words.len() == 0 {
        m
    } else {
        insert_words(m, words.drop_last(), lemma).insert(words.last(), lemma)
    }
}

/// Position of the first `-` or `>` of `s` at or after `a`, or its length.
pub open spec fn next_dash(s: Seq<char>, a: int) -> int
    decreases s.len() - a,
{
    if a >= s.len() || a < 0 {
        s.len() as int
    } else if s[a] == '-' || s[a] == '>' {
        a
    } else {
        next_dash(s, a + 1)
    }
}

/// Position of the first `/` of `s` at or after `a`, or its length.
pub open spec fn next_slash(s: Seq<char>, a: int) -> int
    decreases s.len() - a,
{
    if a >= s.len() || a < 0 {
        s.len() as int
    } else if s[a] == '/' {
        a
    } else {
        next_slash(s, a + 1)
    }
}

/// An arrow `->` starts at `p` and at least one character follows it.
pub open spec fn arrow_at(s: Seq<char>, p: int) -> bool {
    0 <= p && p + 2 < s.len() && s[p] == '-' && s[p + 1] == '>'
}

/// The line splits after its first `a` characters: they are the lemma (at
/// least one, no `/`), and the first `-` or `>` after them opens the arrow.
pub open spec fn splits_at(s: Seq<char>, a: int) -> bool {
    1 <= a <= next_slash(s, 0) && arrow_at(s, next_dash(s, a))
}

/// `a` is the longest lemma part the line admits.
pub open spec fn is_last_split(s: Seq<char>, a: int) -> bool {
    splits_at(s, a) && forall|b: int| a < b <= s.len() ==> !#[trigger] splits_at(s, b)
}

/// The raw lemma part and word-list part of a word-list line, if it has the
/// form `lemma [tags] -> words`.
pub open spec fn lemma_line_parts(s: Seq<char>) -> Option<(Seq<char>, Seq<char>)> {
    if exists|a: int| is_last_split(s, a) {
        let a = choose|a: int| is_last_split(s, a);
        Some((s.subrange(0, a), s.subrange(next_dash(s, a) + 2, s.len() as int)))
    } else {
        None
    }
}

/// The trimmed lemma and the trimmed comma-separated word forms of a
/// word-list line, if it has the expected form.
pub open spec fn lemma_entry(s: Seq<char>) -> Option<(Seq<char>, Seq<Seq<char>>)> {
    match lemma_line_parts(s) {
        Some((head, tail)) => Some((trim_ws(head), split_commas(tail).map_values(|w: Seq<char>| trim_ws(w)))),
        None => None,
    }
}

fn find_dash(cs: &Vec<char>, a: usize) -> (r: usize)
    requires
        a <= cs@.len(),
    ensures
        r == next_dash(cs@, a as int),
{
    let mut p: usize = a;
    while p < cs.len() && cs[p] != '-' && cs[p] != '>'
        invariant
            a <= p <= cs@.len(),
            next_dash(cs@, a as int) == next_dash(cs@, p as int),
        decreases cs@.len() - p,
    {
        p = p + 1;
    }
    p
}

fn find_slash(cs: &Vec<char>) -> (r: usize)
    ensures
        r == next_slash(cs@, 0),
{
    let mut p: usize = 0;
    while p < cs.len() && cs[p] != '/'
        invariant
            p <= cs@.len(),
            next_slash(cs@, 0) == next_slash(cs@, p as int),
        decreases cs@.len() - p,
    {
        p = p + 1;
    }
    p
}

/// Reads one line of a word list: the lemma and the word forms it stands
/// for, or `None` when the line does not have the form
/// `lemma [tags] -> form, form, ...`.
pub fn parse_lemma_line(line: &str) -> (r: Option<(String, Vec<String>)>)
    ensures
        match r {
            Some((lemma, words)) => lemma_entry(line@) == Some((lemma@, words@.map_values(|w: String| w@))),
            None => lemma_entry(line@) is None,
        },
{
    let cs = chars_of(line);
    let n = cs.len();
    let f = find_slash(&cs);
    assert(f <= n) by {
        lemma_next_slash_bounded(cs@, 0);
    }
    let mut a: usize = f;
    while a >= 1
        invariant
            a <= f == next_slash(cs@, 0) <= n == cs@.len(),
            cs@ == line@,
            forall|b: int| a < b <= n ==> !#[trigger] splits_at(cs@, b),
        decreases a,
    {
        let p = find_dash(&cs, a);
        if p < n && n - p > 2 && cs[p] == '-' && cs[p + 1] == '>' {
            assert(is_last_split(cs@, a as int));
            let lemma = trimmed(&cs, 0, a);
            let words = trimmed_comma_pieces(&cs, p + 2, n);
            proof {
                let a0 = choose|x: int| is_last_split(cs@, x);
                if a0 < a {
                    assert(splits_at(cs@, a as int));
                } else if a0 > a {
                    assert(!splits_at(cs@, a0));
                }
                assert(a0 == a);
                assert(lemma_line_parts(line@) == Some((cs@.subrange(0, a as int), cs@.subrange(p + 2, n as int))));
            }
            return Some((lemma, words));
        }
        a = a - 1;
    }
    proof {
        assert forall|x: int| !is_last_split(cs@, x) by {
            if 1 <= x <= f {
                assert(!splits_at(cs@, x));
            }
        }
    }
    None
}

/// Word -> lemma.
pub struct LemmaTable {
    lemmas: StrMap<String>,
}

impl View for LemmaTable {
    type V = Map<Seq<char>, Seq<char>>;

    closed spec fn view(&self) -> Map<Seq<char>, Seq<char>> {
        self.lemmas@.map_values(|s: String| s@)
    }
}

impl LemmaTable {
    /// An empty table sized for about `capacity` words.
    pub fn with_capacity(capacity: usize) -> (r: Self)
        ensures
            r@ == Map::<Seq<char>, Seq<char>>::empty(),
    {
        let lemmas = StrMap::with_buckets(capacity);
        let r = LemmaTable { lemmas };
        assert(r@ =~= Map::<Seq<char>, Seq<char>>::empty());
        r
    }

    /// Maps `word` to `lemma`, replacing an earlier lemma of it.
    pub fn insert(&mut self, word: String, lemma: String)
        ensures
            final(self)@ == old(self)@.insert(word@, lemma@),
    {
        let ghost w = word@;
        let ghost l = lemma@;
        self.lemmas.insert(word, lemma);
        assert(self@ =~= old(self)@.insert(w, l));
    }

    /// The canonical form of `word`.
    pub fn lemma_of(&self, word: &String) -> (r: String)
        ensures
            r@ == canonical(self@, word@),
    {
        match self.lemmas.get(word) {
            Some(l) => l.clone(),
            None => word.clone(),
        }
    }

    /// Adds the entry of one word-list line; a line without the expected
    /// form adds nothing. Returns whether the line had it.
    pub fn add_line(&mut self, line: &str) -> (r: bool)
        ensures
            r == lemma_entry(line@) is Some,
            match lemma_entry(line@) {
                Some((lemma, words)) => final(self)@ == insert_words(old(self)@, words, lemma),
                None => final(self)@ == old(self)@,
            },
    {
        match parse_lemma_line(line) {
            Some((lemma, words)) => {
                self.insert_all(words, &lemma);
                true
            },
            None => false,
        }
    }

    /// Maps each of `words` to `lemma`, in order.
    pub fn insert_all(&mut self, words: Vec<String>, lemma: &String)
        ensures
            final(self)@ == insert_words(old(self)@, words@.map_values(|w: String| w@), lemma@),
    {
        let ghost ws = words@.map_values(|w: String| w@);
        let ghost m0 = self@;
        let mut i: usize = 0;
        while i < words.len()
            invariant
                i <= words@.len(),
                ws == words@.map_values(|w: String| w@),
                self@ == insert_words(m0, ws.take(i as int), lemma@),
            decreases words@.len() - i,
        {
            assert(ws.take(i as int + 1).drop_last() == ws.take(i as int));
            self.insert(words[i].clone(), lemma.clone());
            i = i + 1;
        }
        assert(ws.take(words@.len() as int) == ws);
    }
}

/// Canonical terms of `text` under `table`: lower-cased, punctuation turned
/// into spaces, split at white space, each word replaced by its lemma.
pub fn lemmatise_string(table: &LemmaTable, text: &str) -> (r: Vec<String>)
    ensures
        r@.map_values(|w: String| w@) == normalize(table@, text@),
{
    let lower = lowercase(text);
    let plain = replace_punctuation(lower.as_str());
    let cs = chars_of(plain.as_str());
    let words = split_words(&cs);
    let ghost ws = words@.map_values(|w: String| w@);
    let mut out: Vec<String> = Vec::new();
    let mut i: usize = 0;
    while i < words.len()
        invariant
            i <= words@.len(),
            ws == words@.map_values(|w: String| w@),
            ws == split_ws(strip_punctuation(lower_of(text@))),
            out@.len() == i,
            forall|j: int| 0 <= j < i ==> #[trigger] out@[j]@ == canonical(table@, ws[j]),
        decreases words@.len() - i,
    {
        let l = table.lemma_of(&words[i]);
        out.push(l);
        i = i + 1;
    }
    assert(out@.map_values(|w: String| w@) =~= normalize(table@, text@));
    out
}

/// Normalising a text that is already lower case, holds no punctuation and
/// is made of canonical words (each one its own lemma or unlisted) gives
/// back exactly its words, in order.
pub proof fn lemma_normalize_canonical_text(m: Map<Seq<char>, Seq<char>>, text: Seq<char>)
    requires
        lower_of(text) == text,
        forall|i: int| 0 <= i < text.len() ==> is_kept(#[trigger] text[i]),
        forall|j: int| 0 <= j < split_ws(text).len() ==> canonical(m, #[trigger] split_ws(text)[j]) == split_ws(text)[j],
    ensures
        normalize(m, text) == split_ws(text),
{
    assert(strip_punctuation(text) =~= text);
    assert(normalize(m, text) =~= split_ws(text));
}

} // verus!
