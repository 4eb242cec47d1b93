//! What the command line shows: score bars, masked keys, index totals and
//! language statistics.

use vstd::prelude::*;
use vstd::string::StringSliceAdditionalSpecFns;

use crate::text::{
    append_chars, chars_eq, chars_of, slice_copy, string_of, utf8_len,
};
use crate::tree::{cuts_cleanly, prefix_within, prefix_within_bytes, utf8_at_most};

verus! {

broadcast use vstd::string::group_string_axioms;

pub open spec fn repeat_char(c: char, n: nat) -> Seq<char> {
    Seq::new(n, |i: int| c)
}

/// A ten-cell bar: one filled cell per ten percent, the rest empty.
pub open spec fn bar_of(pct: nat) -> Seq<char> {
    let filled = pct / 10;
    let empty = if filled >= 10 {
        0
    } else {
        10 - filled
    };
    repeat_char('█', filled) + repeat_char('░', empty as nat)
}

/// The text of `s` after its first `n` bytes.
pub open spec fn after_bytes(s: Seq<char>, n: nat) -> Seq<char> {
    s.skip(prefix_within(s, n).len() as int)
}

/// A key shown as its first eight and last four bytes around `...`.
pub open spec fn masked(key: Seq<char>) -> Seq<char> {
    prefix_within(key, 8) + "..."@ + after_bytes(key, (utf8_len(key) - 4) as nat)
}

/// Both cuts of `masked` land on character boundaries.
pub open spec fn maskable(key: Seq<char>) -> bool {
    utf8_len(key) >= 8 && cuts_cleanly(key, 8) && cuts_cleanly(key, (utf8_len(key) - 4) as nat)
}

/// How an OpenAI key is shown: masked when longer than twelve bytes,
/// `****` otherwise.
pub open spec fn shown_openai_key(key: Seq<char>) -> Seq<char> {
    if utf8_len(key) > 12 {
        masked(key)
    } else {
        "****"@
    }
}

/// Languages in order of first appearance, with how many files have each.
pub open spec fn tally(langs: Seq<Seq<char>>) -> Seq<(Seq<char>, nat)>
    decreases langs.len(),
{
    if langs.len() == 0 {
        seq![]
    } else {
        bump(tally(langs.drop_last()), langs.last())
    }
}

/// `t` with `l` counted once more.
pub open spec fn bump(t: Seq<(Seq<char>, nat)>, l: Seq<char>) -> Seq<(Seq<char>, nat)>
    decreases t.len(),
{
    if t.len() == 0 {
        seq![(l, 1nat)]
    } else if t[0].0 == l {
        t.update(0, (l, t[0].1 + 1))
    } else {
        seq![t[0]] + bump(t.drop_first(), l)
    }
}

/// `x` inserted into `sorted` after every entry with at least its count.
pub open spec fn insert_by_count(sorted: Seq<(Seq<char>, nat)>, x: (Seq<char>, nat)) -> Seq<
    (Seq<char>, nat),
>
    decreases sorted.len(),
{
    if sorted.len() == 0 {
        seq![x]
    } else if sorted.last().1 >= x.1 {
        sorted.push(x)
    } else {
        insert_by_count(sorted.drop_last(), x).push(sorted.last())
    }
}

/// Stable sort by descending count.
pub open spec fn sort_by_count(s: Seq<(Seq<char>, nat)>) -> Seq<(Seq<char>, nat)>
    decreases s.len(),
{
    if s.len() == 0 {
        seq![]
    } else {
        insert_by_count(sort_by_count(s.drop_last()), s.last())
    }
}

/// Language statistics: each language once with its file count, most
/// common first (ties in order of first appearance).
pub open spec fn language_stats(langs: Seq<Seq<char>>) -> Seq<(Seq<char>, nat)> {
    sort_by_count(tally(langs))
}

pub open spec fn sum(v: Seq<usize>) -> nat
    decreases v.len(),
{
    if v.len() == 0 {
        0
    } else {
        sum(v.drop_last()) + (v.last() as nat)
    }
}

pub open spec fn stats_view(v: Seq<(String, usize)>) -> Seq<(Seq<char>, nat)> {
    v.map_values(|e: (String, usize)| (e.0@, e.1 as nat))
}

fn repeat(c: char, n: u64) -> (r: Vec<char>)
    ensures
        r@ == repeat_char(c, n as nat),
{
    let mut out: Vec<char> = Vec::new();
    let mut i: u64 = 0;
    while i < n
        invariant
            i <= n,
            out@ == repeat_char(c, i as nat),
        decreases n - i,
    {
        out.push(c);
        i += 1;
        proof {
            assert(out@ =~= repeat_char(c, i as nat));
        }
    }
    out
}

/// The bar drawn next to a selected file.
pub fn score_bar(pct: u64) -> (r: String)
    ensures
        r@ == bar_of(pct as nat),
{
    let filled = pct / 10;
    let empty = if filled >= 10 {
        0
    } else {
        10 - filled
    };
    let mut out = repeat('█', filled);
    append_chars(&mut out, &repeat('░', empty));
    string_of(&out)
}

fn masked_exec(key: &str) -> (r: Vec<char>)
    requires
        maskable(key@),
    ensures
        r@ == masked(key@),
{
    let k = chars_of(key);
    let n = crate::text::byte_len(key);
    let head = prefix_within_bytes(&k, 8);
    let lead = prefix_within_bytes(&k, n - 4);
    proof {
        crate::tree::lemma_prefix_within_len(k@, (n - 4) as nat);
        lemma_prefix_is_prefix(k@, (n - 4) as nat);
    }
    let tail = slice_copy(&k, lead.len(), k.len());
    let mut out = head;
    append_chars(&mut out, &chars_of("..."));
    append_chars(&mut out, &tail);
    proof {
        assert(tail@ =~= after_bytes(key@, (utf8_len(key@) - 4) as nat));
    }
    out
}

proof fn lemma_prefix_is_prefix(s: Seq<char>, n: nat)
    ensures
        prefix_within(s, n).len() <= s.len(),
        prefix_within(s, n) == s.take(prefix_within(s, n).len() as int),
    decreases s.len(),
{
    if s.len() == 0 || crate::text::utf8_width(s[0]) > n {
        assert(s.take(0) =~= Seq::<char>::empty());
    } else {
        let m = (n - crate::text::utf8_width(s[0])) as nat;
        lemma_prefix_is_prefix(s.drop_first(), m);
        let p = prefix_within(s.drop_first(), m);
        assert(seq![s[0]] + p =~= s.take(p.len() as int + 1));
    }
}

/// How the configuration screen shows an OpenAI key.
pub fn mask_openai_key(key: &str) -> (r: String)
    requires
        utf8_len(key@) > 12 ==> maskable(key@),
    ensures
        r@ == shown_openai_key(key@),
{
    if crate::text::byte_len(key) > 12 {
        string_of(&masked_exec(key))
    } else {
        string_of(&chars_of("****"))
    }
}

/// How the configuration screen shows an OpenRouter or DeepSeek key.
pub fn mask_key(key: &str) -> (r: String)
    requires
        maskable(key@),
    ensures
        r@ == masked(key@),
{
    string_of(&masked_exec(key))
}

/// Whether a key can be shown masked without cutting inside a character.
pub fn is_maskable(key: &str) -> (r: bool)
    ensures
        r == maskable(key@),
{
    let k = chars_of(key);
    let n = crate::text::byte_len(key);
    if n < 8 {
        return false;
    }
    let a = prefix_within_bytes(&k, 8);
    let b = prefix_within_bytes(&k, n - 4);
    proof {
        crate::tree::lemma_prefix_within_len(k@, 8);
        crate::tree::lemma_prefix_within_len(k@, (n - 4) as nat);
    }
    let a_ok = utf8_at_most(&k, 8) || !utf8_at_most_strict(&a, 8);
    let b_ok = utf8_at_most(&k, n - 4) || !utf8_at_most_strict(&b, n - 4);
    a_ok && b_ok
}

fn utf8_at_most_strict(v: &[char], n: usize) -> (r: bool)
    ensures
        r == (utf8_len(v@) < n),
{
    if n == 0 {
        false
    } else {
        utf8_at_most(v, n - 1)
    }
}

/// Total of the token counts.
pub fn total_tokens(counts: &[usize]) -> (r: usize)
    requires
        sum(counts@) <= usize::MAX,
    ensures
        r == sum(counts@),
{
    let mut total: usize = 0;
    let mut i: usize = 0;
    while i < counts.len()
        invariant
            i <= counts@.len(),
            sum(counts@) <= usize::MAX,
            total == sum(counts@.take(i as int)),
        decreases counts.len() - i,
    {
        proof {
            assert(counts@.take(i + 1).drop_last() =~= counts@.take(i as int));
            lemma_sum_prefix(counts@, i + 1);
        }
        total = total + counts[i];
        i += 1;
    }
    proof {
        assert(counts@.take(counts@.len() as int) =~= counts@);
    }
    total
}

proof fn lemma_sum_prefix(v: Seq<usize>, i: int)
    requires
        0 <= i <= v.len(),
    ensures
        sum(v.take(i)) <= sum(v),
    decreases v.len() - i,
{
    if i == v.len() {
        assert(v.take(i) =~= v);
    } else {
        assert(v.drop_last().take(i) =~= v.take(i));
        lemma_sum_prefix(v.drop_last(), i);
    }
}

proof fn lemma_bump_len(t: Seq<(Seq<char>, nat)>, l: Seq<char>)
    ensures
        bump(t, l).len() <= t.len() + 1,
    decreases t.len(),
{
    if t.len() > 0 && t[0].0 != l {
        lemma_bump_len(t.drop_first(), l);
    }
}

proof fn lemma_tally_len(langs: Seq<Seq<char>>)
    ensures
        tally(langs).len() <= langs.len(),
    decreases langs.len(),
{
    if langs.len() > 0 {
        lemma_tally_len(langs.drop_last());
        lemma_bump_len(tally(langs.drop_last()), langs.last());
    }
}

proof fn lemma_bump_at(t: Seq<(Seq<char>, nat)>, l: Seq<char>, p: int)
    requires
        0 <= p <= t.len(),
        forall|i: int| 0 <= i < p ==> t[i].0 != l,
        p < t.len() ==> t[p].0 == l,
    ensures
        bump(t, l) == if p < t.len() {
            t.update(p, (l, t[p].1 + 1))
        } else {
            t.push((l, 1nat))
        },
    decreases t.len(),
{
    if t.len() == 0 {
        assert(seq![(l, 1nat)] =~= t.push((l, 1nat)));
    } else if t[0].0 == l {
        assert(p == 0);
    } else {
        lemma_bump_at(t.drop_first(), l, p - 1);
        if p < t.len() {
            assert(seq![t[0]] + t.drop_first().update(p - 1, (l, t[p].1 + 1)) =~= t.update(
                p,
                (l, t[p].1 + 1),
            ));
        } else {
            assert(seq![t[0]] + t.drop_first().push((l, 1nat)) =~= t.push((l, 1nat)));
        }
    }
}

proof fn lemma_insert_count_at(sorted: Seq<(Seq<char>, nat)>, x: (Seq<char>, nat), p: int)
    requires
        0 <= p <= sorted.len(),
        forall|i: int| 0 <= i < p ==> sorted[i].1 >= x.1,
        forall|i: int| p <= i < sorted.len() ==> sorted[i].1 < x.1,
    ensures
        insert_by_count(sorted, x) == sorted.insert(p, x),
    decreases sorted.len(),
{
    if sorted.len() == 0 {
        assert(sorted.insert(p, x) =~= seq![x]);
    } else if sorted.last().1 >= x.1 {
        assert(p == sorted.len());
        assert(sorted.insert(p, x) =~= sorted.push(x));
    } else {
        lemma_insert_count_at(sorted.drop_last(), x, p);
        assert(sorted.drop_last().insert(p, x).push(sorted.last()) =~= sorted.insert(p, x));
    }
}

pub open spec fn count_descending(s: Seq<(Seq<char>, nat)>) -> bool {
    forall|i: int, j: int| 0 <= i < j < s.len() ==> s[i].1 >= s[j].1
}

proof fn lemma_insert_count_sorted(sorted: Seq<(Seq<char>, nat)>, x: (Seq<char>, nat))
    requires
        count_descending(sorted),
    ensures
        count_descending(insert_by_count(sorted, x)),
        insert_by_count(sorted, x).len() == sorted.len() + 1,
    decreases sorted.len(),
{
    if sorted.len() > 0 && sorted.last().1 < x.1 {
        lemma_insert_count_sorted(sorted.drop_last(), x);
        let r = insert_by_count(sorted.drop_last(), x);
        let d = sorted.drop_last();
        assert forall|i: int| 0 <= i < r.len() implies r[i].1 >= sorted.last().1 by {
            lemma_insert_count_member(d, x, i);
            if r[i] != x {
                let j = choose|j: int| 0 <= j < d.len() && r[i] == d[j];
                assert(d[j] == sorted[j]);
                assert(sorted[j].1 >= sorted[sorted.len() - 1].1);
            }
        }
        assert(insert_by_count(sorted, x) == r.push(sorted.last()));
    }
}

proof fn lemma_insert_count_len(sorted: Seq<(Seq<char>, nat)>, x: (Seq<char>, nat))
    ensures
        insert_by_count(sorted, x).len() == sorted.len() + 1,
    decreases sorted.len(),
{
    if sorted.len() > 0 && sorted.last().1 < x.1 {
        lemma_insert_count_len(sorted.drop_last(), x);
    }
}

proof fn lemma_insert_count_member(sorted: Seq<(Seq<char>, nat)>, x: (Seq<char>, nat), i: int)
    requires
        0 <= i <= sorted.len(),
    ensures
        i < insert_by_count(sorted, x).len() ==> (insert_by_count(sorted, x)[i] == x || exists|j: int|
            0 <= j < sorted.len() && insert_by_count(sorted, x)[i] == sorted[j]),
    decreases sorted.len(),
{
    if sorted.len() == 0 {
    } else if sorted.last().1 >= x.1 {
        if i < sorted.len() {
            assert(insert_by_count(sorted, x)[i] == sorted[i]);
        }
    } else {
        let r = insert_by_count(sorted.drop_last(), x);
        lemma_insert_count_len(sorted.drop_last(), x);
        if i < r.len() {
            lemma_insert_count_member(sorted.drop_last(), x, i);
            if r[i] != x {
                let j = choose|j: int| 0 <= j < sorted.drop_last().len() && r[i] == sorted.drop_last()[j];
                assert(r[i] == sorted[j]);
            }
        } else if i == r.len() {
            assert(insert_by_count(sorted, x)[i] == sorted[sorted.len() - 1]);
        }
    }
}

/// Law: language statistics are most-common first.
pub proof fn law_language_stats_descending(langs: Seq<Seq<char>>)
    ensures
        count_descending(language_stats(langs)),
{
    lemma_sort_by_count_sorted(tally(langs));
}

/// Total of the counts in a language table.
pub open spec fn counted(t: Seq<(Seq<char>, nat)>) -> nat
    decreases t.len(),
{
    if t.len() == 0 {
        0
    } else {
        counted(t.drop_last()) + t.last().1
    }
}

proof fn lemma_counted_concat(a: Seq<(Seq<char>, nat)>, b: Seq<(Seq<char>, nat)>)
    ensures
        counted(a + b) == counted(a) + counted(b),
    decreases b.len(),
{
    if b.len() == 0 {
        assert(a + b =~= a);
    } else {
        lemma_counted_concat(a, b.drop_last());
        assert((a + b).drop_last() =~= a + b.drop_last());
    }
}

proof fn lemma_counted_single(x: (Seq<char>, nat))
    ensures
        counted(seq![x]) == x.1,
{
    let s = seq![x];
    assert(s.drop_last() =~= Seq::<(Seq<char>, nat)>::empty());
    assert(counted(s.drop_last()) == 0);
    assert(s.last() == x);
}

proof fn lemma_bump_counted(t: Seq<(Seq<char>, nat)>, l: Seq<char>)
    ensures
        counted(bump(t, l)) == counted(t) + 1,
    decreases t.len(),
{
    if t.len() == 0 {
        lemma_counted_single((l, 1nat));
    } else {
        let rest = t.drop_first();
        assert(t =~= seq![t[0]] + rest);
        lemma_counted_concat(seq![t[0]], rest);
        lemma_counted_single(t[0]);
        if t[0].0 == l {
            let x = (l, t[0].1 + 1);
            assert(t.update(0, x) =~= seq![x] + rest);
            lemma_counted_concat(seq![x], rest);
            lemma_counted_single(x);
        } else {
            lemma_bump_counted(rest, l);
            lemma_counted_concat(seq![t[0]], bump(rest, l));
        }
    }
}

proof fn lemma_tally_counted(langs: Seq<Seq<char>>)
    ensures
        counted(tally(langs)) == langs.len(),
    decreases langs.len(),
{
    if langs.len() > 0 {
        lemma_tally_counted(langs.drop_last());
        lemma_bump_counted(tally(langs.drop_last()), langs.last());
    }
}

proof fn lemma_insert_counted(sorted: Seq<(Seq<char>, nat)>, x: (Seq<char>, nat))
    ensures
        counted(insert_by_count(sorted, x)) == counted(sorted) + x.1,
    decreases sorted.len(),
{
    if sorted.len() == 0 {
        lemma_counted_single(x);
    } else if sorted.last().1 < x.1 {
        lemma_insert_counted(sorted.drop_last(), x);
        assert(insert_by_count(sorted, x).drop_last() =~= insert_by_count(sorted.drop_last(), x));
    } else {
        assert(sorted.push(x).drop_last() =~= sorted);
    }
}

proof fn lemma_sort_counted(s: Seq<(Seq<char>, nat)>)
    ensures
        counted(sort_by_count(s)) == counted(s),
    decreases s.len(),
{
    if s.len() > 0 {
        lemma_sort_counted(s.drop_last());
        lemma_insert_counted(sort_by_count(s.drop_last()), s.last());
    }
}

/// Law: the language statistics count every file exactly once: their
/// counts add up to the number of files.
pub proof fn law_language_stats_count_every_file(langs: Seq<Seq<char>>)
    ensures
        counted(language_stats(langs)) == langs.len(),
{
    lemma_tally_counted(langs);
    lemma_sort_counted(tally(langs));
}

proof fn lemma_sort_by_count_sorted(s: Seq<(Seq<char>, nat)>)
    ensures
        count_descending(sort_by_count(s)),
        sort_by_count(s).len() == s.len(),
    decreases s.len(),
{
    if s.len() > 0 {
        lemma_sort_by_count_sorted(s.drop_last());
        lemma_insert_count_sorted(sort_by_count(s.drop_last()), s.last());
    }
}

/// Each language once with its number of files, most common first.
pub fn language_counts(langs: &Vec<String>) -> (r: Vec<(String, usize)>)
    ensures
        stats_view(r@) == language_stats(langs.deep_view()),
{
    let ghost lv = langs.deep_view();
    let mut tally_v: Vec<(String, usize)> = Vec::new();
    let mut i: usize = 0;
    while i < langs.len()
        invariant
            i <= langs@.len(),
            lv == langs.deep_view(),
            stats_view(tally_v@) == tally(lv.take(i as int)),
            tally_v@.len() <= i,
            forall|k: int| 0 <= k < tally_v@.len() ==> (#[trigger] tally_v@[k]).1 <= i,
        decreases langs.len() - i,
    {
        proof {
            assert(lv.take(i + 1).drop_last() =~= lv.take(i as int));
            assert(lv.take(i + 1).last() == langs@[i as int]@);
        }
        let l = chars_of(langs[i].as_str());
        let ghost t = stats_view(tally_v@);
        let mut p: usize = 0;
        while p < tally_v.len() && !chars_eq(&chars_of(tally_v[p].0.as_str()), &l)
            invariant
                p <= tally_v@.len(),
                t == stats_view(tally_v@),
                forall|k: int| 0 <= k < p ==> t[k].0 != l@,
            decreases tally_v.len() - p,
        {
            p += 1;
        }
        proof {
            lemma_bump_at(t, l@, p as int);
        }
        if p < tally_v.len() {
            let n = tally_v[p].1;
            let name = tally_v[p].0.clone();
            tally_v.set(p, (name, n + 1));
            proof {
                assert(stats_view(tally_v@) =~= t.update(p as int, (l@, t[p as int].1 + 1)));
            }
        } else {
            tally_v.push((string_of(&l), 1));
            proof {
                assert(stats_view(tally_v@) =~= t.push((l@, 1nat)));
            }
        }
        i += 1;
    }
    proof {
        assert(lv.take(langs@.len() as int) =~= lv);
    }
    let ghost tv = stats_view(tally_v@);
    let mut rest = tally_v;
    let mut out: Vec<(String, usize)> = Vec::new();
    let total_len = rest.len();
    let mut j: usize = 0;
    proof {
        assert(tv.take(0) =~= Seq::<(Seq<char>, nat)>::empty());
        assert(stats_view(rest@) =~= tv.skip(0));
    }
    while rest.len() > 0
        invariant
            j <= tv.len(),
            tv.len() == total_len,
            stats_view(rest@) == tv.skip(j as int),
            stats_view(out@) == sort_by_count(tv.take(j as int)),
            count_descending(stats_view(out@)),
            out@.len() == j,
        decreases rest.len(),
    {
        proof {
            assert(stats_view(rest@).len() == rest@.len());
        }
        let x = rest.remove(0);
        let mut p: usize = 0;
        while p < out.len() && out[p].1 >= x.1
            invariant
                p <= out@.len(),
                forall|k: int| 0 <= k < p ==> out@[k].1 >= x.1,
            decreases out.len() - p,
        {
            p += 1;
        }
        proof {
            let ov = stats_view(out@);
            let xv = (x.0@, x.1 as nat);
            assert forall|k: int| p <= k < ov.len() implies ov[k].1 < xv.1 by {
                if p < out@.len() {
                    assert(out@[p as int].1 < x.1);
                    assert(ov[p as int].1 >= ov[k].1);
                }
            }
            assert forall|k: int| 0 <= k < p implies ov[k].1 >= xv.1 by {}
            lemma_insert_count_at(ov, xv, p as int);
            lemma_insert_count_sorted(ov, xv);
            assert(tv.take(j + 1).drop_last() =~= tv.take(j as int));
            assert(tv.skip(j as int)[0] == xv);
            assert(tv.take(j + 1).last() == xv);
            assert(tv.skip(j as int).drop_first() =~= tv.skip(j + 1));
        }
        let ghost before = out@;
        out.insert(p, x);
        proof {
            assert(stats_view(out@) =~= stats_view(before).insert(p as int, (x.0@, x.1 as nat)));
            assert(stats_view(rest@) =~= tv.skip(j + 1));
        }
        j += 1;
    }
    proof {
        assert(tv.take(j as int) =~= tv);
    }
    out
}

} // verus!
