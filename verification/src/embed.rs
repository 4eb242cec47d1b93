//! Text features used for matching: search tokens, code identifiers with
//! their camel/snake-case parts, and the word hash behind the local
//! fallback embedding.

use vstd::prelude::*;
use vstd::string::StringSliceAdditionalSpecFns;

use crate::config::Config;
use crate::store::longer_than_one_byte;
use crate::text::{
    append_chars, chars_of, index_of_char, index_of_ws, is_ascii_alnum, is_ascii_digit, is_ascii_lower,
    is_ascii_upper, is_ws, ascii_lower, lemma_index_of_char, lemma_index_of_char_bounds,
    lemma_index_of_ws_bounds,
    lemma_push_deep_view, lemma_push_strings, lowercase, slice_copy, slice_copy_whole, split_words,
    string_of, to_ascii_lower, unicode_lowercase, utf8_len, words,
};

verus! {

broadcast use vstd::string::group_string_axioms;

/// Dimension of task and file embeddings.
pub const EMBEDDING_DIM: usize = 1536;

/// The embedding engine's settings: the OpenAI key and model it calls with.
pub struct Embedder {
    pub openai_key: Option<String>,
    pub model: String,
}

/// Normalized search text: ASCII letters and digits lowercased, a space
/// before an uppercase letter that follows a lowercase letter or digit, and
/// a space for every other character. The flag says whether the last
/// character was a lowercase letter or digit.
pub open spec fn normalize_state(s: Seq<char>) -> (Seq<char>, bool)
    decreases s.len(),
{
    if s.len() == 0 {
        (seq![], false)
    } else {
        let (out, prev) = normalize_state(s.drop_last());
        let ch = s.last();
        if is_ascii_alnum(ch) {
            let out2 = if is_ascii_upper(ch) && prev {
                out.push(' ')
            } else {
                out
            };
            (out2.push(ascii_lower(ch)), is_ascii_lower(ch) || is_ascii_digit(ch))
        } else {
            (out.push(' '), false)
        }
    }
}

/// The words of `ws` longer than one byte.
pub open spec fn long_words(ws: Seq<Seq<char>>) -> Seq<Seq<char>>
    decreases ws.len(),
{
    if ws.len() == 0 {
        seq![]
    } else if utf8_len(ws.last()) > 1 {
        long_words(ws.drop_last()).push(ws.last())
    } else {
        long_words(ws.drop_last())
    }
}

/// Search terms of a text (code identifiers split at case changes).
pub open spec fn tokens_of(text: Seq<char>) -> Seq<Seq<char>> {
    long_words(words(normalize_state(text).0))
}

/// Name for what `char::is_alphanumeric` returns: whether the character is
/// Unicode `Alphabetic` or `Numeric`.
pub uninterp spec fn unicode_alphanumeric(c: char) -> bool;

/// Calls `char::is_alphanumeric`; its result is named `unicode_alphanumeric`.
#[verifier::external_body]
fn char_is_alphanumeric(c: char) -> (r: bool)
    ensures
        r == unicode_alphanumeric(c),
{
    c.is_alphanumeric()
}

/// Identifier runs of a text: maximal runs of alphanumeric characters and
/// underscores; `.0` holds the finished runs longer than one byte, `.1` the
/// run in progress.
pub open spec fn ident_scan(s: Seq<char>) -> (Seq<Seq<char>>, Seq<char>)
    decreases s.len(),
{
    if s.len() == 0 {
        (seq![], seq![])
    } else {
        let (done, cur) = ident_scan(s.drop_last());
        let ch = s.last();
        if unicode_alphanumeric(ch) || ch == '_' {
            (done, cur.push(ch))
        } else if utf8_len(cur) > 1 {
            (done.push(cur), seq![])
        } else {
            (done, seq![])
        }
    }
}

pub open spec fn ident_runs(s: Seq<char>) -> Seq<Seq<char>> {
    let (done, cur) = ident_scan(s);
    if utf8_len(cur) > 1 {
        done.push(cur)
    } else {
        done
    }
}

/// All pieces of `s` split at `c` (`s.split(c)`, which yields at least one).
pub open spec fn split_all(s: Seq<char>, c: char) -> Seq<Seq<char>>
    decreases s.len(),
{
    let k = index_of_char(s, c);
    if k < s.len() {
        proof {
            lemma_index_of_char_bounds(s, c);
        }
        seq![s.take(k)] + split_all(s.skip(k + 1), c)
    } else {
        seq![s]
    }
}

/// CamelCase words of `s` scanned from index `i`: an uppercase letter
/// followed by a lowercase one starts a new word; other ASCII letters and
/// digits extend the current word; anything else is dropped. Words of one
/// character are dropped at the end.
pub open spec fn camel_scan(s: Seq<char>, i: int, parts: Seq<Seq<char>>, cur: Seq<char>) -> Seq<
    Seq<char>,
>
    decreases s.len() - i,
{
    if i >= s.len() || i < 0 {
        if cur.len() > 1 {
            parts.push(cur)
        } else {
            parts
        }
    } else {
        let ch = s[i];
        if is_ascii_upper(ch) {
            if cur.len() > 0 && i + 1 < s.len() && is_ascii_lower(s[i + 1]) {
                camel_scan(s, i + 1, parts.push(cur), seq![ch])
            } else {
                camel_scan(s, i + 1, parts, cur.push(ch))
            }
        } else if is_ascii_lower(ch) || is_ascii_digit(ch) {
            camel_scan(s, i + 1, parts, cur.push(ch))
        } else {
            camel_scan(s, i + 1, parts, cur)
        }
    }
}

pub open spec fn camel_words(s: Seq<char>) -> Seq<Seq<char>> {
    camel_scan(s, 0, seq![], seq![])
}

/// The lowercased forms of `ps` that are longer than one byte.
pub open spec fn lowered_long(ps: Seq<Seq<char>>) -> Seq<Seq<char>>
    decreases ps.len(),
{
    if ps.len() == 0 {
        seq![]
    } else {
        let prev = lowered_long(ps.drop_last());
        let l = unicode_lowercase(ps.last());
        if utf8_len(l) > 1 {
            prev.push(l)
        } else {
            prev
        }
    }
}

/// What one snake_case part adds: itself lowercased, then its lowercased
/// CamelCase words (each only when longer than one byte).
pub open spec fn part_entries(p: Seq<char>) -> Seq<Seq<char>> {
    lowered_long(seq![p]) + lowered_long(camel_words(p))
}

pub open spec fn parts_entries(ps: Seq<Seq<char>>) -> Seq<Seq<char>>
    decreases ps.len(),
{
    if ps.len() == 0 {
        seq![]
    } else {
        parts_entries(ps.drop_last()) + part_entries(ps.last())
    }
}

/// An identifier followed by its snake_case and CamelCase parts.
pub open spec fn with_parts(ident: Seq<char>) -> Seq<Seq<char>> {
    seq![ident] + parts_entries(split_all(ident, '_'))
}

pub open spec fn runs_entries(runs: Seq<Seq<char>>) -> Seq<Seq<char>>
    decreases runs.len(),
{
    if runs.len() == 0 {
        seq![]
    } else {
        runs_entries(runs.drop_last()) + with_parts(runs.last())
    }
}

/// The identifiers of a text, each followed by its parts.
pub open spec fn identifiers_of(text: Seq<char>) -> Seq<Seq<char>> {
    runs_entries(ident_runs(text))
}

/// DJB2 over bytes with wrapping 64-bit arithmetic.
pub open spec fn djb2(bytes: Seq<u8>) -> u64
    decreases bytes.len(),
{
    if bytes.len() == 0 {
        5381
    } else {
        vstd::wrapping::u64_specs::wrapping_add(
            vstd::wrapping::u64_specs::wrapping_mul(djb2(bytes.drop_last()), 33),
            bytes.last() as u64,
        )
    }
}

fn push_all_strings(dst: &mut Vec<String>, src: Vec<String>)
    ensures
        final(dst).deep_view() == old(dst).deep_view() + src.deep_view(),
{
    let mut i: usize = 0;
    let ghost start = dst.deep_view();
    let ghost sv = src.deep_view();
    while i < src.len()
        invariant
            i <= src@.len(),
            sv == src.deep_view(),
            dst.deep_view() == start + sv.take(i as int),
        decreases src.len() - i,
    {
        let s = src[i].clone();
        let ghost before = *dst;
        dst.push(s);
        proof {
            lemma_push_strings(before, *dst, s);
            assert(sv.take(i + 1) =~= sv.take(i as int).push(s@));
            assert(start + sv.take(i + 1) =~= (start + sv.take(i as int)).push(s@));
        }
        i += 1;
    }
    proof {
        assert(sv.take(src@.len() as int) =~= sv);
    }
}

impl Embedder {
    /// The embedding engine's settings for a configuration.
    pub fn init(config: &Config) -> (r: Self)
        ensures
            crate::config::opt_view(r.openai_key) == config@.openai_key,
            r.model@ == match config@.embedding_model {
                Some(m) => m,
                None => "text-embedding-3-small"@,
            },
    {
        let model = match &config.embedding_model {
            Some(m) => m.clone(),
            None => string_of(&chars_of("text-embedding-3-small")),
        };
        let openai_key = match &config.openai_key {
            Some(k) => Some(k.clone()),
            None => None,
        };
        Embedder { openai_key, model }
    }

    /// Dimension of the embedding vectors.
    pub fn dimension() -> (r: usize)
        ensures
            r == EMBEDDING_DIM,
    {
        EMBEDDING_DIM
    }

    /// Simple non-crypto hash (DJB2) for the fallback embedding.
    pub fn simple_hash(s: &str) -> (r: u64)
        ensures
            r == djb2(s.spec_bytes()),
    {
        let bytes = s.as_bytes();
        let mut h: u64 = 5381;
        let mut i: usize = 0;
        while i < bytes.len()
            invariant
                i <= bytes@.len(),
                bytes@ == s.spec_bytes(),
                h == djb2(bytes@.take(i as int)),
            decreases bytes.len() - i,
        {
            proof {
                assert(bytes@.take(i + 1).drop_last() =~= bytes@.take(i as int));
            }
            h = h.wrapping_mul(33).wrapping_add(bytes[i] as u64);
            i += 1;
        }
        proof {
            assert(bytes@.take(bytes@.len() as int) =~= bytes@);
        }
        h
    }

    /// Positions in the fallback embedding that the words of `text` land
    /// on: one per search token, its hash modulo the dimension.
    pub fn hash_positions(text: &str) -> (r: Vec<usize>)
        ensures
            r@.len() == tokens_of(text@).len(),
            forall|i: int| 0 <= i < r@.len() ==> #[trigger] r@[i] < EMBEDDING_DIM,
            forall|i: int|
                0 <= i < r@.len() ==> r@[i] == djb2(
                    vstd::utf8::encode_utf8(#[trigger] tokens_of(text@)[i]),
                ) % (EMBEDDING_DIM as u64),
    {
        let words = Self::tokenize(text);
        let mut out: Vec<usize> = Vec::new();
        let mut i: usize = 0;
        while i < words.len()
            invariant
                i <= words@.len(),
                words.deep_view() == tokens_of(text@),
                out@.len() == i,
                forall|k: int| 0 <= k < i ==> #[trigger] out@[k] < EMBEDDING_DIM,
                forall|k: int|
                    0 <= k < i ==> out@[k] == djb2(
                        vstd::utf8::encode_utf8(#[trigger] tokens_of(text@)[k]),
                    ) % (EMBEDDING_DIM as u64),
            decreases words.len() - i,
        {
            let w = words[i].as_str();
            let h = Self::simple_hash(w);
            assert(w@ == tokens_of(text@)[i as int]);
            out.push((h % (EMBEDDING_DIM as u64)) as usize);
            i += 1;
        }
        out
    }

    /// Tokenize text and code identifiers into searchable terms.
    pub fn tokenize(text: &str) -> (r: Vec<String>)
        ensures
            r.deep_view() == tokens_of(text@),
    {
        let v = chars_of(text);
        let mut normalized: Vec<char> = Vec::new();
        let mut prev_lower_or_digit = false;
        let mut i: usize = 0;
        while i < v.len()
            invariant
                i <= v@.len(),
                (normalized@, prev_lower_or_digit) == normalize_state(v@.take(i as int)),
            decreases v.len() - i,
        {
            let ch = v[i];
            proof {
                assert(v@.take(i + 1).drop_last() =~= v@.take(i as int));
                assert(v@.take(i + 1).last() == ch);
            }
            let upper = 'A' <= ch && ch <= 'Z';
            let lower = 'a' <= ch && ch <= 'z';
            let digit = '0' <= ch && ch <= '9';
            if upper || lower || digit {
                if upper && prev_lower_or_digit {
                    normalized.push(' ');
                }
                normalized.push(to_ascii_lower(ch));
                prev_lower_or_digit = lower || digit;
            } else {
                normalized.push(' ');
                prev_lower_or_digit = false;
            }
            i += 1;
        }
        proof {
            assert(v@.take(v@.len() as int) =~= v@);
        }
        let ws = split_words(&normalized);
        let ghost wv = ws.deep_view();
        let mut out: Vec<String> = Vec::new();
        let mut j: usize = 0;
        while j < ws.len()
            invariant
                j <= ws@.len(),
                wv == ws.deep_view(),
                out.deep_view() == long_words(wv.take(j as int)),
            decreases ws.len() - j,
        {
            proof {
                assert(wv.take(j + 1).drop_last() =~= wv.take(j as int));
                assert(wv.take(j + 1).last() == ws@[j as int]@);
            }
            if longer_than_one_byte(&ws[j]) {
                let s = string_of(&ws[j]);
                let ghost before = out;
                out.push(s);
                proof {
                    lemma_push_strings(before, out, s);
                }
            }
            j += 1;
        }
        proof {
            assert(wv.take(ws@.len() as int) =~= wv);
        }
        out
    }

    /// Extract all compound identifiers from code text (CamelCase,
    /// snake_case), each followed by its split parts.
    pub fn extract_identifiers(text: &str) -> (r: Vec<String>)
        ensures
            r.deep_view() == identifiers_of(text@),
    {
        let v = chars_of(text);
        let mut runs: Vec<Vec<char>> = Vec::new();
        let mut current: Vec<char> = Vec::new();
        let mut i: usize = 0;
        while i < v.len()
            invariant
                i <= v@.len(),
                (runs.deep_view(), current@) == ident_scan(v@.take(i as int)),
            decreases v.len() - i,
        {
            let ch = v[i];
            proof {
                assert(v@.take(i + 1).drop_last() =~= v@.take(i as int));
                assert(v@.take(i + 1).last() == ch);
            }
            if char_is_alphanumeric(ch) || ch == '_' {
                current.push(ch);
            } else {
                if longer_than_one_byte(&current) {
                    let ghost before = runs;
                    let c = slice_copy_whole(&current);
                    runs.push(c);
                    proof {
                        lemma_push_deep_view(before, runs, c);
                    }
                }
                current = Vec::new();
            }
            i += 1;
        }
        proof {
            assert(v@.take(v@.len() as int) =~= v@);
        }
        if longer_than_one_byte(&current) {
            let ghost before = runs;
            let c = slice_copy_whole(&current);
            runs.push(c);
            proof {
                lemma_push_deep_view(before, runs, c);
            }
        }
        let ghost rv = runs.deep_view();
        let mut identifiers: Vec<String> = Vec::new();
        let mut k: usize = 0;
        while k < runs.len()
            invariant
                k <= runs@.len(),
                rv == runs.deep_view(),
                identifiers.deep_view() == runs_entries(rv.take(k as int)),
            decreases runs.len() - k,
        {
            proof {
                assert(rv.take(k + 1).drop_last() =~= rv.take(k as int));
                assert(rv.take(k + 1).last() == runs@[k as int]@);
            }
            let ident = string_of(&runs[k]);
            Self::add_with_parts(&mut identifiers, ident.as_str());
            k += 1;
        }
        proof {
            assert(rv.take(runs@.len() as int) =~= rv);
        }
        identifiers
    }

    /// Add an identifier and its split parts (snake_case, then CamelCase).
    pub fn add_with_parts(identifiers: &mut Vec<String>, ident: &str)
        ensures
            final(identifiers).deep_view() == old(identifiers).deep_view() + with_parts(ident@),
    {
        let s = string_of(&chars_of(ident));
        let ghost before = *identifiers;
        identifiers.push(s);
        proof {
            lemma_push_strings(before, *identifiers, s);
        }
        let ghost base = identifiers.deep_view();
        let parts = split_all_exec(&chars_of(ident), '_');
        let ghost pv = parts.deep_view();
        let mut i: usize = 0;
        while i < parts.len()
            invariant
                i <= parts@.len(),
                pv == parts.deep_view(),
                pv == split_all(ident@, '_'),
                identifiers.deep_view() == base + parts_entries(pv.take(i as int)),
            decreases parts.len() - i,
        {
            proof {
                assert(pv.take(i + 1).drop_last() =~= pv.take(i as int));
                assert(pv.take(i + 1).last() == parts@[i as int]@);
            }
            let part = &parts[i];
            let mut entries: Vec<String> = Vec::new();
            assert(entries.deep_view() =~= Seq::<Seq<char>>::empty());
            let lower = lowercase(part);
            proof {
                assert(seq![part@].drop_last() =~= Seq::<Seq<char>>::empty());
                assert(seq![part@].last() == part@);
                assert(lowered_long(Seq::<Seq<char>>::empty()) == Seq::<Seq<char>>::empty());
                assert(lowered_long(seq![part@]) == if utf8_len(unicode_lowercase(part@)) > 1 {
                    seq![unicode_lowercase(part@)]
                } else {
                    Seq::<Seq<char>>::empty()
                }) by {
                    assert(Seq::<Seq<char>>::empty().push(unicode_lowercase(part@)) =~= seq![
                        unicode_lowercase(part@),
                    ]);
                }
            }
            if longer_than_one_byte(&lower) {
                let ls = string_of(&lower);
                let ghost b2 = entries;
                entries.push(ls);
                proof {
                    lemma_push_strings(b2, entries, ls);
                }
            }
            proof {
                assert(entries.deep_view() =~= lowered_long(seq![part@]));
            }
            let camel = Self::split_camel_case(string_of(part).as_str());
            let ghost cv = camel.deep_view();
            let ghost e0 = entries.deep_view();
            let mut j: usize = 0;
            while j < camel.len()
                invariant
                    j <= camel@.len(),
                    cv == camel.deep_view(),
                    entries.deep_view() == e0 + lowered_long(cv.take(j as int)),
                decreases camel.len() - j,
            {
                proof {
                    assert(cv.take(j + 1).drop_last() =~= cv.take(j as int));
                    assert(cv.take(j + 1).last() == camel@[j as int]@);
                }
                let cl = lowercase(&chars_of(camel[j].as_str()));
                if longer_than_one_byte(&cl) {
                    let ls = string_of(&cl);
                    let ghost b2 = entries;
                    entries.push(ls);
                    proof {
                        lemma_push_strings(b2, entries, ls);
                    }
                }
                j += 1;
            }
            proof {
                assert(cv.take(camel@.len() as int) =~= cv);
                assert(entries.deep_view() =~= part_entries(part@));
            }
            let ghost mid = identifiers.deep_view();
            push_all_strings(identifiers, entries);
            proof {
                assert(identifiers.deep_view() =~= base + parts_entries(pv.take(i + 1)));
            }
            i += 1;
        }
        proof {
            assert(pv.take(parts@.len() as int) =~= pv);
            assert(identifiers.deep_view() =~= before.deep_view() + with_parts(ident@));
        }
    }

    /// Split a CamelCase string into its constituent words.
    pub fn split_camel_case(s: &str) -> (r: Vec<String>)
        ensures
            r.deep_view() == camel_words(s@),
    {
        let chars = chars_of(s);
        let mut parts: Vec<Vec<char>> = Vec::new();
        let mut current: Vec<char> = Vec::new();
        let mut i: usize = 0;
        assert(parts.deep_view() =~= Seq::<Seq<char>>::empty());
        assert(current@ =~= Seq::<char>::empty());
        while i < chars.len()
            invariant
                i <= chars@.len(),
                chars@ == s@,
                camel_words(s@) == camel_scan(s@, i as int, parts.deep_view(), current@),
            decreases chars.len() - i,
        {
            let ch = chars[i];
            if 'A' <= ch && ch <= 'Z' {
                if current.len() > 0 && i + 1 < chars.len() && 'a' <= chars[i + 1] && chars[i + 1]
                    <= 'z' {
                    let c = slice_copy_whole(&current);
                    let ghost before = parts;
                    parts.push(c);
                    proof {
                        lemma_push_deep_view(before, parts, c);
                    }
                    current = Vec::new();
                    current.push(ch);
                    proof {
                        assert(current@ =~= seq![ch]);
                    }
                } else {
                    current.push(ch);
                }
            } else if ('a' <= ch && ch <= 'z') || ('0' <= ch && ch <= '9') {
                current.push(ch);
            }
            i += 1;
        }
        if current.len() > 1 {
            let c = slice_copy_whole(&current);
            let ghost before = parts;
            parts.push(c);
            proof {
                lemma_push_deep_view(before, parts, c);
            }
        }
        let mut out: Vec<String> = Vec::new();
        let mut k: usize = 0;
        while k < parts.len()
            invariant
                k <= parts@.len(),
                out.deep_view() == parts.deep_view().take(k as int),
            decreases parts.len() - k,
        {
            let st = string_of(&parts[k]);
            let ghost before = out;
            out.push(st);
            proof {
                lemma_push_strings(before, out, st);
                crate::text::lemma_chars_deep_view(parts@[k as int]);
                assert(parts.deep_view().take(k + 1) =~= parts.deep_view().take(k as int).push(
                    parts@[k as int]@,
                ));
            }
            k += 1;
        }
        proof {
            assert(parts.deep_view().take(parts@.len() as int) =~= parts.deep_view());
        }
        out
    }
}

/// `s.split(c)`, on characters.
pub fn split_all_exec(s: &[char], c: char) -> (r: Vec<Vec<char>>)
    ensures
        r.deep_view() == split_all(s@, c),
{
    let mut out: Vec<Vec<char>> = Vec::new();
    let mut pos: usize = 0;
    proof {
        assert(s@.skip(0) =~= s@);
    }
    loop
        invariant
            pos <= s@.len(),
            split_all(s@, c) == out.deep_view() + split_all(s@.skip(pos as int), c),
        decreases s@.len() - pos,
    {
        let ghost rest = s@.skip(pos as int);
        let mut j = pos;
        while j < s.len() && s[j] != c
            invariant
                pos <= j <= s@.len(),
                forall|t: int| pos <= t < j ==> s@[t] != c,
            decreases s.len() - j,
        {
            j += 1;
        }
        proof {
            lemma_index_of_char(rest, c, j - pos);
        }
        let piece = slice_copy(s, pos, j);
        let ghost before = out;
        out.push(piece);
        proof {
            lemma_push_deep_view(before, out, piece);
        }
        if j == s.len() {
            proof {
                assert(rest =~= s@.subrange(pos as int, j as int));
                assert(out.deep_view() =~= before.deep_view() + split_all(rest, c));
            }
            return out;
        }
        proof {
            assert(rest.take(j - pos) =~= s@.subrange(pos as int, j as int));
            assert(rest.skip(j - pos + 1) =~= s@.skip(j + 1));
            assert(out.deep_view() + split_all(s@.skip(j + 1), c) =~= before.deep_view() + (seq![
                rest.take(j - pos),
            ] + split_all(rest.skip(j - pos + 1), c)));
        }
        pos = j + 1;
    }
}


/// A character a search term may hold: an ASCII lowercase letter or digit.
pub open spec fn term_char(c: char) -> bool {
    ('a' <= c && c <= 'z') || ('0' <= c && c <= '9')
}

proof fn lemma_normalized_chars(s: Seq<char>)
    ensures
        forall|k: int|
            0 <= k < normalize_state(s).0.len() ==> term_char(#[trigger] normalize_state(s).0[k])
                || normalize_state(s).0[k] == ' ',
    decreases s.len(),
{
    if s.len() > 0 {
        let d = s.drop_last();
        lemma_normalized_chars(d);
        let (out, prev) = normalize_state(d);
        let ch = s.last();
        let r = normalize_state(s).0;
        if is_ascii_alnum(ch) {
            let out2 = if is_ascii_upper(ch) && prev {
                out.push(' ')
            } else {
                out
            };
            assert(term_char(ascii_lower(ch)));
            assert(r == out2.push(ascii_lower(ch)));
            assert forall|k: int| 0 <= k < r.len() implies term_char(#[trigger] r[k]) || r[k] == ' ' by {
                if k < out.len() {
                    assert(r[k] == out[k]);
                }
            }
        } else {
            assert(r == out.push(' '));
            assert forall|k: int| 0 <= k < r.len() implies term_char(#[trigger] r[k]) || r[k] == ' ' by {
                if k < out.len() {
                    assert(r[k] == out[k]);
                }
            }
        }
    }
}

proof fn lemma_index_of_ws_prefix(s: Seq<char>)
    ensures
        forall|i: int| 0 <= i < index_of_ws(s) ==> !is_ws(#[trigger] s[i]),
    decreases s.len(),
{
    if s.len() > 0 && !is_ws(s[0]) {
        lemma_index_of_ws_prefix(s.drop_first());
        lemma_index_of_ws_bounds(s.drop_first());
        assert forall|i: int| 0 <= i < index_of_ws(s) implies !is_ws(#[trigger] s[i]) by {
            if i > 0 {
                assert(s[i] == s.drop_first()[i - 1]);
            }
        }
    }
}

proof fn lemma_words_term_chars(s: Seq<char>)
    requires
        forall|k: int| 0 <= k < s.len() ==> term_char(#[trigger] s[k]) || is_ws(s[k]),
    ensures
        forall|i: int, k: int|
            0 <= i < words(s).len() && 0 <= k < words(s)[i].len() ==> term_char(#[trigger] words(s)[i][k]),
    decreases s.len(),
{
    if s.len() > 0 {
        if is_ws(s[0]) {
            let d = s.drop_first();
            assert forall|k: int| 0 <= k < d.len() implies term_char(#[trigger] d[k]) || is_ws(d[k]) by {
                assert(d[k] == s[k + 1]);
            }
            lemma_words_term_chars(d);
            assert(words(s) == words(d));
        } else {
            let k0 = index_of_ws(s);
            lemma_index_of_ws_bounds(s.drop_first());
            lemma_index_of_ws_bounds(s);
            lemma_index_of_ws_prefix(s);
            let head = s.take(k0);
            let rest = s.skip(k0);
            assert forall|k: int| 0 <= k < rest.len() implies term_char(#[trigger] rest[k]) || is_ws(rest[k]) by {
                assert(rest[k] == s[k + k0]);
            }
            lemma_words_term_chars(rest);
            let w = words(s);
            assert(w == seq![head] + words(rest));
            assert forall|i: int, k: int| 0 <= i < w.len() && 0 <= k < w[i].len() implies term_char(
                #[trigger] w[i][k],
            ) by {
                if i == 0 {
                    assert(w[0] == head);
                    assert(head[k] == s[k]);
                    assert(!is_ws(s[k]));
                } else {
                    assert(w[i] == words(rest)[i - 1]);
                }
            }
        }
    }
}

proof fn lemma_long_words_chars(ws: Seq<Seq<char>>)
    requires
        forall|i: int, k: int| 0 <= i < ws.len() && 0 <= k < ws[i].len() ==> term_char(#[trigger] ws[i][k]),
    ensures
        forall|i: int|
            0 <= i < long_words(ws).len() ==> utf8_len(#[trigger] long_words(ws)[i]) > 1 && forall|k: int|
                0 <= k < long_words(ws)[i].len() ==> term_char(#[trigger] long_words(ws)[i][k]),
    decreases ws.len(),
{
    if ws.len() > 0 {
        let d = ws.drop_last();
        assert forall|i: int, k: int| 0 <= i < d.len() && 0 <= k < d[i].len() implies term_char(
            #[trigger] d[i][k],
        ) by {
            assert(d[i] == ws[i]);
        }
        lemma_long_words_chars(d);
        let prev = long_words(d);
        let out = long_words(ws);
        assert forall|i: int| 0 <= i < out.len() implies utf8_len(#[trigger] out[i]) > 1 && forall|k: int|
            0 <= k < out[i].len() ==> term_char(#[trigger] out[i][k]) by {
            if i < prev.len() {
                assert(out[i] == prev[i]);
            } else {
                assert(out[i] == ws[ws.len() - 1]);
                assert forall|k: int| 0 <= k < out[i].len() implies term_char(#[trigger] out[i][k]) by {
                    assert(term_char(ws[ws.len() - 1][k]));
                }
            }
        }
    }
}

/// Law: every search term of a text is longer than one byte and made only
/// of ASCII lowercase letters and digits (letters are lowercased, and any
/// other character separates terms).
pub proof fn law_search_terms(text: Seq<char>)
    ensures
        forall|i: int|
            0 <= i < tokens_of(text).len() ==> utf8_len(#[trigger] tokens_of(text)[i]) > 1 && forall|k: int|
                0 <= k < tokens_of(text)[i].len() ==> ('a' <= #[trigger] tokens_of(text)[i][k] <= 'z'
                    || '0' <= tokens_of(text)[i][k] <= '9'),
{
    let n = normalize_state(text).0;
    lemma_normalized_chars(text);
    assert forall|k: int| 0 <= k < n.len() implies term_char(#[trigger] n[k]) || is_ws(n[k]) by {
        if n[k] == ' ' {
            assert(is_ws(n[k]));
        }
    }
    lemma_words_term_chars(n);
    lemma_long_words_chars(words(n));
}

} // verus!
