//! Ranking and selection of scored files.
//!
//! Scores are held as order keys of `f32` values (see `score_key`), so that
//! ordering and selection can be stated and proved exactly while ranking
//! the files as their floating-point scores do.

use vstd::prelude::*;

use crate::store::{has_char, ImportEdge};
use crate::text::{
    chars_are, chars_eq, chars_of, contains, ends_with, has_substring, has_suffix, lemma_push_strings,
    lowercase, slice_copy, split_words, string_of, unicode_lowercase, words,
};

verus! {

/// The relevance engine: ranks scored files and picks the ones that fit.
pub struct RelevanceEngine;

/// A file with its composite relevance score and the signals behind it.
/// Every score is the order key (`score_key`) of an `f32` value.
pub struct ScoredFile {
    pub path: String,
    pub summary: String,
    pub token_count: usize,
    pub language: String,
    pub score: i64,
    pub semantic_score: i64,
    pub dependency_score: i64,
    pub history_score: i64,
    pub lexical_score: i64,
}

/// The order key of an `f32` score from its bits (`f32::to_bits`): a
/// non-negative value keeps its bits, a negative one the negated magnitude
/// bits, so both zeros get 0. Between scores that are not NaN, keys compare
/// as the scores do under `partial_cmp`.
pub open spec fn score_key(bits: u32) -> int {
    if bits < 0x8000_0000 {
        bits as int
    } else {
        -(bits - 0x8000_0000)
    }
}

/// The bits of the `f32` score a key stands for (+0.0 for key 0).
pub open spec fn key_bits(key: int) -> u32
    recommends
        -0x8000_0000 < key < 0x8000_0000,
{
    if key >= 0 {
        key as u32
    } else {
        (0x8000_0000 - key) as u32
    }
}

/// The order key of an `f32` score given by its bits.
pub fn order_key(bits: u32) -> (r: i64)
    ensures
        r == score_key(bits),
        -0x8000_0000 < r < 0x8000_0000,
{
    if bits < 0x8000_0000 {
        bits as i64
    } else {
        0 - ((bits - 0x8000_0000) as i64)
    }
}

/// The bits of the `f32` score a key stands for.
pub fn key_to_bits(key: i64) -> (r: u32)
    requires
        -0x8000_0000 < key < 0x8000_0000,
    ensures
        r == key_bits(key as int),
{
    if key >= 0 {
        key as u32
    } else {
        (0x8000_0000i64 - key) as u32
    }
}

/// Law: turning a key back into bits and the bits into a key gives the key
/// again; turning bits into a key and back gives the bits again, except
/// that -0.0 comes back as +0.0.
pub proof fn law_score_key_round_trip(key: int, bits: u32)
    requires
        -0x8000_0000 < key < 0x8000_0000,
    ensures
        score_key(key_bits(key)) == key,
        bits != 0x8000_0000 ==> key_bits(score_key(bits)) == bits,
        key_bits(score_key(0x8000_0000)) == 0,
{
}

/// Tokens a file is expected to take once trimmed: 40% of its tokens,
/// rounded down.
pub open spec fn trimmed_cost(token_count: nat) -> nat {
    (token_count * 2) / 5
}

/// Sum of the trimmed costs of the token counts in `tcs`.
pub open spec fn total_cost(tcs: Seq<usize>) -> nat
    decreases tcs.len(),
{
    if tcs.len() == 0 {
        0
    } else {
        total_cost(tcs.drop_last()) + trimmed_cost(tcs.last() as nat)
    }
}

/// How many files the greedy selection keeps, scanning from index `i` with
/// `total` trimmed tokens already taken: stop at `max_files` files (when
/// non-zero), or at the first file that would overflow the budget, except
/// that the first file is always taken.
pub open spec fn select_from(tcs: Seq<usize>, budget: nat, max_files: nat, i: nat, total: nat) -> nat
    decreases tcs.len() - i,
{
    if i >= tcs.len() {
        i
    } else if max_files > 0 && i >= max_files {
        i
    } else if total + trimmed_cost(tcs[i as int] as nat) > budget && i > 0 {
        i
    } else {
        select_from(tcs, budget, max_files, i + 1, total + trimmed_cost(tcs[i as int] as nat))
    }
}

/// Token counts of a list of scored files.
pub open spec fn token_counts(files: Seq<ScoredFile>) -> Seq<usize> {
    files.map_values(|f: ScoredFile| f.token_count)
}

/// Number of files `select_top` keeps.
pub open spec fn selected_count(files: Seq<ScoredFile>, budget: nat, max_files: nat) -> nat {
    select_from(token_counts(files), budget, max_files, 0, 0)
}

fn trimmed_cost_exec(token_count: usize) -> (r: usize)
    ensures
        r == trimmed_cost(token_count as nat),
{
    let q = token_count / 5;
    let m = token_count % 5;
    proof {
        assert(token_count == 5 * q + m);
        assert((token_count as nat * 2) / 5 == 2 * q + (2 * m) / 5) by (nonlinear_arith)
            requires
                token_count == 5 * q + m,
                m < 5,
        ;
    }
    q * 2 + (m * 2) / 5
}

/// `x` inserted into `sorted` after every element scoring at least as high.
pub open spec fn insert_by_score(sorted: Seq<ScoredFile>, x: ScoredFile) -> Seq<ScoredFile>
    decreases sorted.len(),
{
    if sorted.len() == 0 {
        seq![x]
    } else if sorted.last().score >= x.score {
        sorted.push(x)
    } else {
        insert_by_score(sorted.drop_last(), x).push(sorted.last())
    }
}

/// Stable sort by descending score.
pub open spec fn sort_by_score(s: Seq<ScoredFile>) -> Seq<ScoredFile>
    decreases s.len(),
{
    if s.len() == 0 {
        seq![]
    } else {
        insert_by_score(sort_by_score(s.drop_last()), s.last())
    }
}

pub open spec fn descending(s: Seq<ScoredFile>) -> bool {
    forall|i: int, j: int| 0 <= i < j < s.len() ==> s[i].score >= s[j].score
}

proof fn lemma_insert_is_vec_insert(sorted: Seq<ScoredFile>, x: ScoredFile, p: int)
    requires
        descending(sorted),
        0 <= p <= sorted.len(),
        forall|i: int| 0 <= i < p ==> sorted[i].score >= x.score,
        forall|i: int| p <= i < sorted.len() ==> sorted[i].score < x.score,
    ensures
        insert_by_score(sorted, x) == sorted.insert(p, x),
    decreases sorted.len(),
{
    if sorted.len() == 0 {
        assert(sorted.insert(p, x) =~= seq![x]);
    } else if sorted.last().score >= x.score {
        assert(p == sorted.len());
        assert(sorted.insert(p, x) =~= sorted.push(x));
    } else {
        lemma_insert_is_vec_insert(sorted.drop_last(), x, p);
        assert(sorted.drop_last().insert(p, x).push(sorted.last()) =~= sorted.insert(p, x));
    }
}

proof fn lemma_insert_props(sorted: Seq<ScoredFile>, x: ScoredFile)
    requires
        descending(sorted),
    ensures
        descending(insert_by_score(sorted, x)),
        insert_by_score(sorted, x).to_multiset() == sorted.to_multiset().insert(x),
        insert_by_score(sorted, x).len() == sorted.len() + 1,
    decreases sorted.len(),
{
    broadcast use vstd::seq_lib::group_seq_properties;

    if sorted.len() == 0 {
        assert(seq![x] =~= Seq::<ScoredFile>::empty().push(x));
    } else if sorted.last().score >= x.score {
    } else {
        lemma_insert_props(sorted.drop_last(), x);
        let r = insert_by_score(sorted.drop_last(), x);
        assert(sorted =~= sorted.drop_last().push(sorted.last()));
        assert forall|i: int| 0 <= i < r.len() implies r[i].score >= sorted.last().score by {
            lemma_insert_member(sorted.drop_last(), x, i);
        }
    }
}

proof fn lemma_insert_member(sorted: Seq<ScoredFile>, x: ScoredFile, i: int)
    requires
        0 <= i < insert_by_score(sorted, x).len(),
        insert_by_score(sorted, x).len() == sorted.len() + 1,
    ensures
        insert_by_score(sorted, x)[i] == x || exists|j: int|
            0 <= j < sorted.len() && insert_by_score(sorted, x)[i] == sorted[j],
    decreases sorted.len(),
{
    if sorted.len() == 0 {
    } else if sorted.last().score >= x.score {
        if i < sorted.len() {
            assert(insert_by_score(sorted, x)[i] == sorted[i]);
        }
    } else {
        let r = insert_by_score(sorted.drop_last(), x);
        lemma_insert_len(sorted.drop_last(), x);
        if i < r.len() {
            lemma_insert_member(sorted.drop_last(), x, i);
            if r[i] != x {
                let j = choose|j: int| 0 <= j < sorted.drop_last().len() && r[i] == sorted.drop_last()[j];
                assert(r[i] == sorted[j]);
            }
        } else {
            assert(insert_by_score(sorted, x)[i] == sorted[sorted.len() - 1]);
        }
    }
}

proof fn lemma_insert_len(sorted: Seq<ScoredFile>, x: ScoredFile)
    ensures
        insert_by_score(sorted, x).len() == sorted.len() + 1,
    decreases sorted.len(),
{
    if sorted.len() > 0 && sorted.last().score < x.score {
        lemma_insert_len(sorted.drop_last(), x);
    }
}

/// Law: ranking yields the same files, in descending score order.
pub proof fn law_sort_by_score(s: Seq<ScoredFile>)
    ensures
        descending(sort_by_score(s)),
        sort_by_score(s).to_multiset() == s.to_multiset(),
        sort_by_score(s).len() == s.len(),
    decreases s.len(),
{
    broadcast use vstd::seq_lib::group_seq_properties;

    if s.len() > 0 {
        law_sort_by_score(s.drop_last());
        lemma_insert_props(sort_by_score(s.drop_last()), s.last());
        assert(s =~= s.drop_last().push(s.last()));
    } else {
        assert(sort_by_score(s) =~= Seq::<ScoredFile>::empty());
    }
}

/// The file cap `max_files` stands for: no cap when it is 0.
pub open spec fn cap_allows(max_files: nat, n: nat) -> bool {
    max_files == 0 || n < max_files
}

proof fn lemma_select_from_at_least(tcs: Seq<usize>, budget: nat, max_files: nat, i: nat, total: nat)
    ensures
        select_from(tcs, budget, max_files, i, total) >= i,
    decreases tcs.len() - i,
{
    if i < tcs.len() && !(max_files > 0 && i >= max_files) && !(total + trimmed_cost(
        tcs[i as int] as nat,
    ) > budget && i > 0) {
        lemma_select_from_at_least(
            tcs,
            budget,
            max_files,
            i + 1,
            total + trimmed_cost(tcs[i as int] as nat),
        );
    }
}

proof fn lemma_select_from_monotone(
    tcs: Seq<usize>,
    b1: nat,
    b2: nat,
    m1: nat,
    m2: nat,
    i: nat,
    total: nat,
)
    requires
        b1 <= b2,
        forall|n: nat| cap_allows(m1, n) ==> cap_allows(m2, n),
    ensures
        select_from(tcs, b1, m1, i, total) <= select_from(tcs, b2, m2, i, total),
    decreases tcs.len() - i,
{
    lemma_select_from_at_least(tcs, b2, m2, i, total);
    if i < tcs.len() && !(m1 > 0 && i >= m1) && !(total + trimmed_cost(tcs[i as int] as nat) > b1
        && i > 0) {
        assert(cap_allows(m1, i));
        assert(cap_allows(m2, i));
        lemma_select_from_monotone(
            tcs,
            b1,
            b2,
            m1,
            m2,
            i + 1,
            total + trimmed_cost(tcs[i as int] as nat),
        );
    }
}

/// Law: a larger budget, or a larger file cap (0 being no cap), never
/// selects fewer files.
pub proof fn law_select_top_monotone(files: Seq<ScoredFile>, b1: nat, b2: nat, m1: nat, m2: nat)
    requires
        b1 <= b2,
        m2 == 0 || (m1 > 0 && m1 <= m2),
    ensures
        selected_count(files, b1, m1) <= selected_count(files, b2, m2),
{
    assert forall|n: nat| cap_allows(m1, n) implies cap_allows(m2, n) by {}
    lemma_select_from_monotone(token_counts(files), b1, b2, m1, m2, 0, 0);
}

/// Law: selecting from a ranking picks the best files: every selected file
/// scores at least as high as every file left out.
pub proof fn law_selection_is_best(scored: Seq<ScoredFile>, budget: nat, max_files: nat)
    ensures
        ({
            let ranked = sort_by_score(scored);
            let k = selected_count(ranked, budget, max_files);
            forall|i: int, j: int|
                0 <= i < k <= j < ranked.len() ==> #[trigger] ranked[i].score >= #[trigger] ranked[j].score
        }),
{
    law_sort_by_score(scored);
}

proof fn lemma_total_len_prefix(lists: Seq<Seq<Seq<char>>>, i: int)
    requires
        0 <= i <= lists.len(),
    ensures
        total_len(lists.take(i)) <= total_len(lists),
        i > 0 ==> total_len(lists.take(i)) == total_len(lists.take(i - 1)) + lists[i - 1].len(),
    decreases lists.len() - i,
{
    if i == lists.len() {
        assert(lists.take(i) =~= lists);
    } else {
        assert(lists.drop_last().take(i) =~= lists.take(i));
        lemma_total_len_prefix(lists.drop_last(), i);
    }
    if i > 0 {
        assert(lists.take(i).drop_last() =~= lists.take(i - 1));
    }
}

proof fn lemma_select_from(tcs: Seq<usize>, budget: nat, max_files: nat, i: nat, total: nat)
    requires
        i <= tcs.len(),
        total == total_cost(tcs.take(i as int)),
        i <= 1 || total <= budget,
        max_files > 0 ==> i <= max_files,
    ensures
        ({
            let k = select_from(tcs, budget, max_files, i, total);
            &&& i <= k <= tcs.len()
            &&& max_files > 0 ==> k <= max_files
            &&& k <= 1 || total_cost(tcs.take(k as int)) <= budget
            &&& (k < tcs.len() && (max_files == 0 || k < max_files)) ==> (k >= 1 && total_cost(
                tcs.take(k as int),
            ) + trimmed_cost(tcs[k as int] as nat) > budget)
            &&& (tcs.len() > 0 && i == 0) ==> k >= 1
        }),
    decreases tcs.len() - i,
{
    if i >= tcs.len() {
    } else if max_files > 0 && i >= max_files {
    } else if total + trimmed_cost(tcs[i as int] as nat) > budget && i > 0 {
    } else {
        assert(tcs.take(i + 1 as int).drop_last() =~= tcs.take(i as int));
        lemma_select_from(
            tcs,
            budget,
            max_files,
            i + 1,
            total + trimmed_cost(tcs[i as int] as nat),
        );
    }
}

/// Law: the selection is never empty for a non-empty ranking, holds at most
/// `max_files` files (when non-zero), stays within the budget unless it is
/// the single top file, and stops only when the next file would not fit.
pub proof fn law_select_top(files: Seq<ScoredFile>, budget: nat, max_files: nat)
    ensures
        ({
            let k = selected_count(files, budget, max_files);
            let tcs = token_counts(files);
            &&& k <= files.len()
            &&& files.len() > 0 ==> k >= 1
            &&& max_files > 0 ==> k <= max_files
            &&& k <= 1 || total_cost(tcs.take(k as int)) <= budget
            &&& (k < files.len() && (max_files == 0 || k < max_files)) ==> total_cost(
                tcs.take(k as int),
            ) + trimmed_cost(files[k as int].token_count as nat) > budget
        }),
{
    let tcs = token_counts(files);
    assert(tcs.take(0) =~= Seq::<usize>::empty());
    lemma_select_from(tcs, budget, max_files, 0, 0);
}

/// How strongly a path matches the file names a task mentions.
pub enum FilenameMatch {
    /// No mentioned name occurs in the path.
    NoMatch,
    /// A mentioned name occurs somewhere in the path.
    Partial,
    /// The path is a mentioned name, or ends with `/` and that name.
    Exact,
}

/// A task word that looks like a file name or path.
pub open spec fn names_a_file(w: Seq<char>) -> bool {
    w.contains('.') || w.contains('/') || w.contains('\\')
}

pub open spec fn is_trailing_punct(c: char) -> bool {
    c == ',' || c == '.' || c == '!' || c == '?'
}

/// `w` without trailing `,` `.` `!` `?`.
pub open spec fn trim_trailing_punct(w: Seq<char>) -> Seq<char>
    decreases w.len(),
{
    if w.len() > 0 && is_trailing_punct(w.last()) {
        trim_trailing_punct(w.drop_last())
    } else {
        w
    }
}

pub open spec fn patterns_of(ws: Seq<Seq<char>>) -> Seq<Seq<char>>
    decreases ws.len(),
{
    if ws.len() == 0 {
        seq![]
    } else if names_a_file(ws.last()) {
        patterns_of(ws.drop_last()).push(unicode_lowercase(trim_trailing_punct(ws.last())))
    } else {
        patterns_of(ws.drop_last())
    }
}

/// The file names a task mentions: its words with `.`, `/` or `\\`,
/// without trailing punctuation, lowercased.
pub open spec fn filename_patterns(task: Seq<char>) -> Seq<Seq<char>> {
    patterns_of(words(task))
}

pub open spec fn exact_name(path_lower: Seq<char>, pat: Seq<char>) -> bool {
    path_lower == pat || ends_with(path_lower, seq!['/'] + pat)
}

/// How a path matches the mentioned names (compared lowercased).
pub open spec fn filename_match(patterns: Seq<Seq<char>>, path: Seq<char>) -> FilenameMatch {
    let p = unicode_lowercase(path);
    if exists|i: int| 0 <= i < patterns.len() && #[trigger] exact_name(p, patterns[i]) {
        FilenameMatch::Exact
    } else if exists|i: int| 0 <= i < patterns.len() && contains(p, #[trigger] patterns[i]) {
        FilenameMatch::Partial
    } else {
        FilenameMatch::NoMatch
    }
}

proof fn lemma_patterns_of_has(ws: Seq<Seq<char>>, k: int)
    requires
        0 <= k < ws.len(),
        names_a_file(ws[k]),
    ensures
        exists|i: int|
            0 <= i < patterns_of(ws).len() && #[trigger] patterns_of(ws)[i] == unicode_lowercase(
                trim_trailing_punct(ws[k]),
            ),
    decreases ws.len(),
{
    let d = ws.drop_last();
    if k == ws.len() - 1 {
        let i = patterns_of(d).len() as int;
        assert(patterns_of(ws)[i] == unicode_lowercase(trim_trailing_punct(ws[k])));
    } else {
        lemma_patterns_of_has(d, k);
        let i = choose|i: int|
            0 <= i < patterns_of(d).len() && #[trigger] patterns_of(d)[i] == unicode_lowercase(
                trim_trailing_punct(d[k]),
            );
        assert(patterns_of(ws)[i] == patterns_of(d)[i]);
    }
}

/// What trailing punctuation removal leaves: a prefix of the word that is
/// empty or does not end with `,` `.` `!` `?`, with only those characters
/// after it.
proof fn lemma_trim_trailing_punct(w: Seq<char>)
    ensures
        ({
            let r = trim_trailing_punct(w);
            &&& r.len() <= w.len()
            &&& r == w.take(r.len() as int)
            &&& r.len() == 0 || !(r.last() == ',' || r.last() == '.' || r.last() == '!' || r.last() == '?')
            &&& forall|m: int| r.len() <= m < w.len() ==> (w[m] == ',' || w[m] == '.' || w[m] == '!' || w[m] == '?')
        }),
    decreases w.len(),
{
    if w.len() > 0 && is_trailing_punct(w.last()) {
        let d = w.drop_last();
        lemma_trim_trailing_punct(d);
        let r = trim_trailing_punct(d);
        assert(w.take(r.len() as int) =~= d.take(r.len() as int));
        assert forall|m: int| r.len() <= m < w.len() implies (w[m] == ',' || w[m] == '.' || w[m] == '!'
            || w[m] == '?') by {
            if m < d.len() {
                assert(w[m] == d[m]);
            }
        }
    } else {
        assert(w.take(w.len() as int) =~= w);
    }
}

/// The index of the task word the `i`-th filename pattern comes from.
pub closed spec fn pattern_origin(ws: Seq<Seq<char>>, i: int) -> int
    decreases ws.len(),
{
    if ws.len() == 0 {
        0
    } else if i < patterns_of(ws.drop_last()).len() {
        pattern_origin(ws.drop_last(), i)
    } else {
        ws.len() - 1
    }
}

proof fn lemma_patterns_of_origin(ws: Seq<Seq<char>>)
    ensures
        forall|i: int|
            0 <= i < patterns_of(ws).len() ==> 0 <= #[trigger] pattern_origin(ws, i) < ws.len()
                && names_a_file(ws[pattern_origin(ws, i)]) && patterns_of(ws)[i] == unicode_lowercase(
                trim_trailing_punct(ws[pattern_origin(ws, i)]),
            ),
    decreases ws.len(),
{
    if ws.len() > 0 {
        let d = ws.drop_last();
        lemma_patterns_of_origin(d);
        let prev = patterns_of(d);
        let out = patterns_of(ws);
        assert forall|i: int| 0 <= i < out.len() implies 0 <= #[trigger] pattern_origin(ws, i) < ws.len()
            && names_a_file(ws[pattern_origin(ws, i)]) && out[i] == unicode_lowercase(
            trim_trailing_punct(ws[pattern_origin(ws, i)]),
        ) by {
            if i < prev.len() {
                assert(pattern_origin(ws, i) == pattern_origin(d, i));
                assert(out[i] == prev[i]);
                assert(ws[pattern_origin(d, i)] == d[pattern_origin(d, i)]);
            } else {
                assert(pattern_origin(ws, i) == ws.len() - 1);
                assert(names_a_file(ws.last()));
            }
        }
    }
}

/// Law: a filename pattern is a task word that names a file (holds `.`,
/// `/` or `\`), cut before its trailing run of `,` `.` `!` `?` and
/// lowercased: what is kept is empty or ends with none of those, and only
/// those follow it. So `app.tsx.` gives the pattern of `app.tsx`.
pub proof fn law_filename_pattern(task: Seq<char>, i: int)
    requires
        0 <= i < filename_patterns(task).len(),
    ensures
        exists|j: int, k: int|
            #![trigger words(task)[j].take(k)]
            0 <= j < words(task).len() && 0 <= k <= words(task)[j].len() && names_a_file(words(task)[j])
                && filename_patterns(task)[i] == unicode_lowercase(words(task)[j].take(k)) && (k == 0
                || !(words(task)[j][k - 1] == ',' || words(task)[j][k - 1] == '.' || words(task)[j][k
                - 1] == '!' || words(task)[j][k - 1] == '?')) && forall|m: int|
                k <= m < words(task)[j].len() ==> (words(task)[j][m] == ',' || words(task)[j][m] == '.'
                    || words(task)[j][m] == '!' || words(task)[j][m] == '?'),
        0 <= pattern_origin(words(task), i) < words(task).len(),
        ({
            let w = words(task)[pattern_origin(words(task), i)];
            exists|k: int|
                #![trigger w.take(k)]
                0 <= k <= w.len() && names_a_file(w) && filename_patterns(task)[i] == unicode_lowercase(
                    w.take(k),
                ) && (k == 0 || !(w[k - 1] == ',' || w[k - 1] == '.' || w[k - 1] == '!' || w[k - 1]
                    == '?')) && forall|m: int|
                    k <= m < w.len() ==> (w[m] == ',' || w[m] == '.' || w[m] == '!' || w[m] == '?')
        }),
{
    let ws = words(task);
    lemma_patterns_of_origin(ws);
    let j = pattern_origin(ws, i);
    let w = ws[j];
    lemma_trim_trailing_punct(w);
    let r = trim_trailing_punct(w);
    let k = r.len() as int;
    if k > 0 {
        assert(w[k - 1] == r.last());
    }
    assert(filename_patterns(task)[i] == unicode_lowercase(w.take(k)));
    assert(0 <= j < words(task).len() && 0 <= k <= words(task)[j].len() && names_a_file(words(task)[j])
        && filename_patterns(task)[i] == unicode_lowercase(words(task)[j].take(k)) && (k == 0
        || !(words(task)[j][k - 1] == ',' || words(task)[j][k - 1] == '.' || words(task)[j][k - 1] == '!'
        || words(task)[j][k - 1] == '?')) && forall|m: int|
        k <= m < words(task)[j].len() ==> (words(task)[j][m] == ',' || words(task)[j][m] == '.'
            || words(task)[j][m] == '!' || words(task)[j][m] == '?'));
}

/// Law: a file the task names outright (a word of the task, without
/// trailing punctuation and compared lowercased, is the path or its final
/// components) matches exactly.
pub proof fn law_named_file_matches_exactly(task: Seq<char>, path: Seq<char>, k: int)
    requires
        0 <= k < words(task).len(),
        names_a_file(words(task)[k]),
        exact_name(unicode_lowercase(path), unicode_lowercase(trim_trailing_punct(words(task)[k]))),
    ensures
        filename_match(filename_patterns(task), path) == FilenameMatch::Exact,
{
    lemma_patterns_of_has(words(task), k);
    let ps = filename_patterns(task);
    let i = choose|i: int|
        0 <= i < ps.len() && #[trigger] ps[i] == unicode_lowercase(trim_trailing_punct(words(task)[k]));
    assert(exact_name(unicode_lowercase(path), ps[i]));
}

/// How often `path` appears among the file lists of similar past tasks.
pub open spec fn occurrences(list: Seq<Seq<char>>, path: Seq<char>) -> nat
    decreases list.len(),
{
    if list.len() == 0 {
        0
    } else {
        occurrences(list.drop_last(), path) + if list.last() == path {
            1nat
        } else {
            0nat
        }
    }
}

pub open spec fn history_occurrences(lists: Seq<Seq<Seq<char>>>, path: Seq<char>) -> nat
    decreases lists.len(),
{
    if lists.len() == 0 {
        0
    } else {
        history_occurrences(lists.drop_last(), path) + occurrences(lists.last(), path)
    }
}

pub open spec fn total_len(lists: Seq<Seq<Seq<char>>>) -> nat
    decreases lists.len(),
{
    if lists.len() == 0 {
        0
    } else {
        total_len(lists.drop_last()) + lists.last().len()
    }
}

/// The files importing `path` (each once, in order of their first edge).
pub open spec fn importers(edges: Seq<ImportEdge>, path: Seq<char>) -> Seq<Seq<char>>
    decreases edges.len(),
{
    if edges.len() == 0 {
        seq![]
    } else {
        let prev = importers(edges.drop_last(), path);
        let e = edges.last();
        if e.to_path@ == path && !prev.contains(e.from_path@) {
            prev.push(e.from_path@)
        } else {
            prev
        }
    }
}

/// The files `path` imports, in edge order.
pub open spec fn imported_by(edges: Seq<ImportEdge>, path: Seq<char>) -> Seq<Seq<char>>
    decreases edges.len(),
{
    if edges.len() == 0 {
        seq![]
    } else {
        let prev = imported_by(edges.drop_last(), path);
        let e = edges.last();
        if e.from_path@ == path {
            prev.push(e.to_path@)
        } else {
            prev
        }
    }
}

fn trim_trailing_punct_exec(w: &[char]) -> (r: Vec<char>)
    ensures
        r@ == trim_trailing_punct(w@),
{
    let mut end = w.len();
    proof {
        assert(w@.take(end as int) =~= w@);
    }
    while end > 0 && (w[end - 1] == ',' || w[end - 1] == '.' || w[end - 1] == '!' || w[end - 1]
        == '?')
        invariant
            end <= w@.len(),
            trim_trailing_punct(w@) == trim_trailing_punct(w@.take(end as int)),
        decreases end,
    {
        proof {
            assert(w@.take(end as int).drop_last() =~= w@.take(end - 1));
        }
        end -= 1;
    }
    let r = slice_copy(w, 0, end);
    assert(r@ =~= w@.take(end as int));
    r
}

impl RelevanceEngine {
    /// The file names a task mentions (lowercased, without trailing
    /// punctuation).
    pub fn filename_patterns(task: &str) -> (r: Vec<String>)
        ensures
            r.deep_view() == filename_patterns(task@),
    {
        let ws = split_words(&chars_of(task));
        let ghost wv = ws.deep_view();
        let mut out: Vec<String> = Vec::new();
        let mut i: usize = 0;
        while i < ws.len()
            invariant
                i <= ws@.len(),
                wv == ws.deep_view(),
                out.deep_view() == patterns_of(wv.take(i as int)),
            decreases ws.len() - i,
        {
            proof {
                assert(wv.take(i + 1).drop_last() =~= wv.take(i as int));
                assert(wv.take(i + 1).last() == ws@[i as int]@);
            }
            let w = &ws[i];
            if has_char(w, '.') || has_char(w, '/') || has_char(w, '\\') {
                let p = string_of(&lowercase(&trim_trailing_punct_exec(w)));
                let ghost before = out;
                out.push(p);
                proof {
                    lemma_push_strings(before, out, p);
                }
            }
            i += 1;
        }
        proof {
            assert(wv.take(ws@.len() as int) =~= wv);
        }
        out
    }

    /// How a path matches the file names a task mentions.
    pub fn filename_match(patterns: &Vec<String>, path: &str) -> (r: FilenameMatch)
        ensures
            r == filename_match(patterns.deep_view(), path@),
    {
        let p = lowercase(&chars_of(path));
        let ghost pv = patterns.deep_view();
        let mut any_exact = false;
        let mut any_contained = false;
        let mut i: usize = 0;
        while i < patterns.len()
            invariant
                i <= patterns@.len(),
                pv == patterns.deep_view(),
                p@ == unicode_lowercase(path@),
                any_exact == exists|j: int| 0 <= j < i && #[trigger] exact_name(p@, pv[j]),
                any_contained == exists|j: int| 0 <= j < i && contains(p@, #[trigger] pv[j]),
            decreases patterns.len() - i,
        {
            let pat = chars_of(patterns[i].as_str());
            assert(pat@ == pv[i as int]);
            let mut slash_pat: Vec<char> = Vec::new();
            slash_pat.push('/');
            crate::text::append_chars(&mut slash_pat, &pat);
            assert(slash_pat@ =~= seq!['/'] + pat@);
            let exact = chars_eq(&p, &pat) || has_suffix(&p, &slash_pat);
            let inside = has_substring(&p, &pat);
            proof {
                assert(exact == exact_name(p@, pv[i as int]));
            }
            any_exact = any_exact || exact;
            any_contained = any_contained || inside;
            i += 1;
        }
        if any_exact {
            FilenameMatch::Exact
        } else if any_contained {
            FilenameMatch::Partial
        } else {
            FilenameMatch::NoMatch
        }
    }

    /// How often `path` appears among the file lists of similar past tasks.
    pub fn history_count(similar: &Vec<Vec<String>>, path: &str) -> (r: usize)
        requires
            total_len(similar.deep_view()) <= usize::MAX,
        ensures
            r == history_occurrences(similar.deep_view(), path@),
    {
        let ghost sv = similar.deep_view();
        let mut count: usize = 0;
        let mut i: usize = 0;
        let target = chars_of(path);
        while i < similar.len()
            invariant
                i <= similar@.len(),
                sv == similar.deep_view(),
                total_len(sv) <= usize::MAX,
                target@ == path@,
                count == history_occurrences(sv.take(i as int), path@),
                count <= total_len(sv.take(i as int)),
            decreases similar.len() - i,
        {
            proof {
                assert(sv.take(i + 1).drop_last() =~= sv.take(i as int));
                assert(sv.take(i + 1).last() == similar@[i as int].deep_view());
                lemma_total_len_prefix(sv, i + 1);
            }
            let list = &similar[i];
            let ghost lv = list.deep_view();
            let ghost start = count;
            let mut j: usize = 0;
            while j < list.len()
                invariant
                    j <= list@.len(),
                    lv == list.deep_view(),
                    target@ == path@,
                    count == start + occurrences(lv.take(j as int), path@),
                    start + lv.len() <= usize::MAX,
                    occurrences(lv.take(j as int), path@) <= j,
                decreases list.len() - j,
            {
                proof {
                    assert(lv.take(j + 1).drop_last() =~= lv.take(j as int));
                    assert(lv.take(j + 1).last() == list@[j as int]@);
                }
                if chars_eq(&chars_of(list[j].as_str()), &target) {
                    count += 1;
                }
                j += 1;
            }
            proof {
                assert(lv.take(list@.len() as int) =~= lv);
            }
            i += 1;
        }
        proof {
            assert(sv.take(similar@.len() as int) =~= sv);
        }
        count
    }

    /// The files importing `path`, each once.
    pub fn importers_of(edges: &Vec<ImportEdge>, path: &str) -> (r: Vec<String>)
        ensures
            r.deep_view() == importers(edges@, path@),
    {
        let target = chars_of(path);
        let mut out: Vec<String> = Vec::new();
        let mut i: usize = 0;
        while i < edges.len()
            invariant
                i <= edges@.len(),
                target@ == path@,
                out.deep_view() == importers(edges@.take(i as int), path@),
            decreases edges.len() - i,
        {
            proof {
                assert(edges@.take(i + 1).drop_last() =~= edges@.take(i as int));
                assert(edges@.take(i + 1).last() == edges@[i as int]);
            }
            let e = &edges[i];
            if chars_eq(&chars_of(e.to_path.as_str()), &target) {
                let from = chars_of(e.from_path.as_str());
                let mut seen = false;
                let mut k: usize = 0;
                while k < out.len()
                    invariant
                        k <= out@.len(),
                        seen == exists|m: int| 0 <= m < k && out.deep_view()[m] == from@,
                    decreases out.len() - k,
                {
                    assert(out.deep_view()[k as int] == out@[k as int]@);
                    if chars_eq(&chars_of(out[k].as_str()), &from) {
                        seen = true;
                    }
                    k += 1;
                }
                proof {
                    if out.deep_view().contains(from@) {
                        let m = choose|m: int| 0 <= m < out.deep_view().len() && out.deep_view()[m] == from@;
                        assert(seen);
                    }
                    if seen {
                        let m = choose|m: int| 0 <= m < k && out.deep_view()[m] == from@;
                        assert(out.deep_view().contains(from@));
                    }
                }
                if !seen {
                    let st = string_of(&from);
                    let ghost before = out;
                    out.push(st);
                    proof {
                        lemma_push_strings(before, out, st);
                    }
                }
            }
            i += 1;
        }
        proof {
            assert(edges@.take(edges@.len() as int) =~= edges@);
        }
        out
    }

    /// The files `path` imports, in edge order.
    pub fn imports_of(edges: &Vec<ImportEdge>, path: &str) -> (r: Vec<String>)
        ensures
            r.deep_view() == imported_by(edges@, path@),
    {
        let target = chars_of(path);
        let mut out: Vec<String> = Vec::new();
        let mut i: usize = 0;
        while i < edges.len()
            invariant
                i <= edges@.len(),
                target@ == path@,
                out.deep_view() == imported_by(edges@.take(i as int), path@),
            decreases edges.len() - i,
        {
            proof {
                assert(edges@.take(i + 1).drop_last() =~= edges@.take(i as int));
                assert(edges@.take(i + 1).last() == edges@[i as int]);
            }
            let e = &edges[i];
            if chars_eq(&chars_of(e.from_path.as_str()), &target) {
                let st = e.to_path.clone();
                let ghost before = out;
                out.push(st);
                proof {
                    lemma_push_strings(before, out, st);
                }
            }
            i += 1;
        }
        proof {
            assert(edges@.take(edges@.len() as int) =~= edges@);
        }
        out
    }

    /// Stable sort by descending score (the order every ranked list has).
    pub fn rank(scored: Vec<ScoredFile>) -> (r: Vec<ScoredFile>)
        ensures
            r@ == sort_by_score(scored@),
    {
        let ghost orig = scored@;
        let total_len = scored.len();
        let mut rest = scored;
        let mut out: Vec<ScoredFile> = Vec::new();
        let mut i: usize = 0;
        proof {
            assert(orig.skip(0) =~= orig);
            assert(orig.take(0) =~= Seq::<ScoredFile>::empty());
        }
        while rest.len() > 0
            invariant
                i <= orig.len(),
                orig.len() == total_len,
                rest@ == orig.skip(i as int),
                out@ == sort_by_score(orig.take(i as int)),
                descending(out@),
                out@.len() == i,
            decreases rest.len(),
        {
            let x = rest.remove(0);
            let mut p: usize = 0;
            while p < out.len() && out[p].score >= x.score
                invariant
                    p <= out@.len(),
                    forall|j: int| 0 <= j < p ==> out@[j].score >= x.score,
                decreases out.len() - p,
            {
                p += 1;
            }
            proof {
                assert forall|j: int| p <= j < out@.len() implies out@[j].score < x.score by {
                    if p < out@.len() {
                        assert(out@[p as int].score < x.score);
                    }
                }
                lemma_insert_is_vec_insert(out@, x, p as int);
                lemma_insert_props(out@, x);
                assert(orig.take(i + 1).drop_last() =~= orig.take(i as int));
                assert(orig.take(i + 1).last() == x);
                assert(orig.skip(i as int).drop_first() =~= orig.skip(i + 1));
            }
            out.insert(p, x);
            i += 1;
        }
        proof {
            assert(orig.take(i as int) =~= orig);
        }
        out
    }

    /// Select top files up to the given token budget: a prefix of the
    /// ranked list; the first file is always kept.
    pub fn select_top(scored: Vec<ScoredFile>, budget: usize, max_files: usize) -> (r: Vec<
        ScoredFile,
    >)
        ensures
            r@ == scored@.take(selected_count(scored@, budget as nat, max_files as nat) as int),
    {
        let ghost tcs = token_counts(scored@);
        let mut count: usize = 0;
        let mut total: usize = 0;
        let n = scored.len();
        loop
            invariant
                n == scored@.len() == tcs.len(),
                tcs == token_counts(scored@),
                count <= n,
                total <= budget || count <= 1,
                select_from(tcs, budget as nat, max_files as nat, 0, 0) == select_from(
                    tcs,
                    budget as nat,
                    max_files as nat,
                    count as nat,
                    total as nat,
                ),
            ensures
                count <= n,
                select_from(tcs, budget as nat, max_files as nat, 0, 0) == count,
            decreases n - count,
        {
            if count >= n {
                break;
            }
            if max_files > 0 && count >= max_files {
                break;
            }
            let cost = trimmed_cost_exec(scored[count].token_count);
            assert(tcs[count as int] == scored@[count as int].token_count);
            let over = if count == 0 {
                false
            } else {
                total > budget || cost > budget - total
            };
            if over {
                break;
            }
            if count == 0 {
                total = cost;
            } else {
                total = total + cost;
            }
            count += 1;
        }
        let mut out = scored;
        out.truncate(count);
        proof {
            assert(out@ =~= scored@.take(count as int));
        }
        out
    }
}


proof fn lemma_pattern_origin_order(ws: Seq<Seq<char>>)
    ensures
        forall|i1: int, i2: int|
            0 <= i1 < i2 < patterns_of(ws).len() ==> #[trigger] pattern_origin(ws, i1)
                < #[trigger] pattern_origin(ws, i2),
        forall|j: int|
            0 <= j < ws.len() && names_a_file(#[trigger] ws[j]) ==> exists|i: int|
                0 <= i < patterns_of(ws).len() && pattern_origin(ws, i) == j,
    decreases ws.len(),
{
    if ws.len() > 0 {
        let d = ws.drop_last();
        lemma_pattern_origin_order(d);
        lemma_patterns_of_origin(d);
        let prev = patterns_of(d);
        let out = patterns_of(ws);
        assert(out.len() == if names_a_file(ws.last()) { prev.len() + 1 } else { prev.len() });
        assert forall|i1: int, i2: int| 0 <= i1 < i2 < out.len() implies #[trigger] pattern_origin(ws, i1)
            < #[trigger] pattern_origin(ws, i2) by {
            assert(pattern_origin(ws, i1) == pattern_origin(d, i1));
            if i2 < prev.len() {
                assert(pattern_origin(ws, i2) == pattern_origin(d, i2));
            } else {
                assert(pattern_origin(ws, i2) == ws.len() - 1);
            }
        }
        assert forall|j: int| 0 <= j < ws.len() && names_a_file(#[trigger] ws[j]) implies exists|i: int|
            0 <= i < out.len() && pattern_origin(ws, i) == j by {
            if j < d.len() {
                assert(ws[j] == d[j]);
                let i = choose|i: int| 0 <= i < prev.len() && pattern_origin(d, i) == j;
                assert(pattern_origin(ws, i) == pattern_origin(d, i));
            } else {
                assert(ws[j] == ws.last());
                assert(pattern_origin(ws, prev.len() as int) == ws.len() - 1);
            }
        }
    }
}

/// Law: the filename patterns follow the task's words. Every word that
/// names a file (holds `.`, `/` or a backslash) gives exactly one pattern,
/// no other word gives one, and the patterns come in the order of their
/// words.
pub proof fn law_filename_patterns_follow_words(task: Seq<char>)
    ensures
        forall|i: int|
            0 <= i < filename_patterns(task).len() ==> 0 <= #[trigger] pattern_origin(words(task), i)
                < words(task).len() && names_a_file(words(task)[pattern_origin(words(task), i)]),
        forall|i1: int, i2: int|
            0 <= i1 < i2 < filename_patterns(task).len() ==> #[trigger] pattern_origin(words(task), i1)
                < #[trigger] pattern_origin(words(task), i2),
        forall|j: int|
            0 <= j < words(task).len() && names_a_file(#[trigger] words(task)[j]) ==> exists|i: int|
                0 <= i < filename_patterns(task).len() && pattern_origin(words(task), i) == j,
{
    let ws = words(task);
    lemma_patterns_of_origin(ws);
    lemma_pattern_origin_order(ws);
}

/// Law: a task word names a file exactly when it holds a `.`, `/` or a backslash.
pub proof fn law_names_a_file(w: Seq<char>)
    ensures
        names_a_file(w) <==> exists|k: int| 0 <= k < w.len() && (w[k] == '.' || w[k] == '/' || w[k] == '\\'),
{
    if exists|k: int| 0 <= k < w.len() && (w[k] == '.' || w[k] == '/' || w[k] == '\\') {
        let k = choose|k: int| 0 <= k < w.len() && (w[k] == '.' || w[k] == '/' || w[k] == '\\');
        assert(w.contains(w[k]));
    }
}


/// Law: a file's expected trimmed cost is 40% of its tokens, rounded down:
/// five times the cost is at most twice the tokens, and less than twice the
/// tokens plus five.
pub proof fn law_trimmed_cost(token_count: nat)
    ensures
        5 * trimmed_cost(token_count) <= 2 * token_count < 5 * trimmed_cost(token_count) + 5,
{
}


/// The files of `s` with score `v`, in order.
pub open spec fn with_score(s: Seq<ScoredFile>, v: i64) -> Seq<ScoredFile>
    decreases s.len(),
{
    if s.len() == 0 {
        seq![]
    } else if s.last().score == v {
        with_score(s.drop_last(), v).push(s.last())
    } else {
        with_score(s.drop_last(), v)
    }
}

proof fn lemma_insert_with_score(sorted: Seq<ScoredFile>, x: ScoredFile, v: i64)
    ensures
        with_score(insert_by_score(sorted, x), v) == if x.score == v {
            with_score(sorted, v).push(x)
        } else {
            with_score(sorted, v)
        },
    decreases sorted.len(),
{
    if sorted.len() == 0 {
        assert(seq![x].drop_last() =~= Seq::<ScoredFile>::empty());
        assert(seq![x].last() == x);
        assert(with_score(Seq::<ScoredFile>::empty(), v) =~= Seq::<ScoredFile>::empty());
    } else if sorted.last().score >= x.score {
        assert(sorted.push(x).drop_last() =~= sorted);
    } else {
        let d = sorted.drop_last();
        lemma_insert_with_score(d, x, v);
        let r = insert_by_score(d, x).push(sorted.last());
        assert(r.drop_last() =~= insert_by_score(d, x));
        assert(r.last() == sorted.last());
    }
}

/// Law: ranking is stable: the files with any one score come out in the
/// order they went in.
pub proof fn law_rank_is_stable(s: Seq<ScoredFile>, v: i64)
    ensures
        with_score(sort_by_score(s), v) == with_score(s, v),
    decreases s.len(),
{
    if s.len() > 0 {
        law_rank_is_stable(s.drop_last(), v);
        lemma_insert_with_score(sort_by_score(s.drop_last()), s.last(), v);
    }
}

} // verus!
