//! Index locations, import edges, and the full-text query built from a task.

use vstd::prelude::*;

use crate::text::{
    append_chars, chars_are, chars_of, has_substring, join, join_with, lemma_push_deep_view,
    split_words, string_of, utf8_len, words,
};

verus! {

broadcast use vstd::string::group_string_axioms;

/// An import relation between two indexed files.
pub struct ImportEdge {
    pub from_path: String,
    pub to_path: String,
}

/// `base` joined with `rel` the way `Path::join` does on Unix: an absolute
/// `rel` replaces `base`; otherwise a `/` separates them unless `base` is
/// empty or already ends with one.
pub open spec fn path_join(base: Seq<char>, rel: Seq<char>) -> Seq<char> {
    if rel.len() > 0 && rel[0] == '/' {
        rel
    } else if base.len() == 0 || base.last() == '/' {
        base + rel
    } else {
        base + seq!['/'] + rel
    }
}

/// `Path::join` on Unix paths held as text.
pub fn join_path(base: &[char], rel: &[char]) -> (r: Vec<char>)
    ensures
        r@ == path_join(base@, rel@),
{
    if rel.len() > 0 && rel[0] == '/' {
        return crate::text::slice_copy_whole(rel);
    }
    let mut out = crate::text::slice_copy_whole(base);
    if !(base.len() == 0 || base[base.len() - 1] == '/') {
        out.push('/');
    }
    append_chars(&mut out, rel);
    out
}

/// The `.ctx` directory of a project.
pub fn ctx_dir(path: &str) -> (r: String)
    ensures
        r@ == path_join(path@, ".ctx"@),
{
    string_of(&join_path(&chars_of(path), &chars_of(".ctx")))
}

/// The index database of a project.
pub fn ctx_db(path: &str) -> (r: String)
    ensures
        r@ == path_join(path_join(path@, ".ctx"@), "index.db"@),
{
    let dir = ctx_dir(path);
    string_of(&join_path(&chars_of(dir.as_str()), &chars_of("index.db")))
}

/// Words dropped from full-text queries.
pub open spec fn is_stopword(w: Seq<char>) -> bool {
    ||| w == "the"@ ||| w == "and"@ ||| w == "for"@ ||| w == "are"@ ||| w == "but"@
    ||| w == "not"@ ||| w == "you"@ ||| w == "all"@ ||| w == "can"@ ||| w == "had"@
    ||| w == "her"@ ||| w == "was"@ ||| w == "one"@ ||| w == "our"@ ||| w == "out"@
    ||| w == "has"@ ||| w == "get"@ ||| w == "its"@ ||| w == "how"@ ||| w == "why"@
    ||| w == "use"@ ||| w == "set"@ ||| w == "add"@ ||| w == "fix"@ ||| w == "new"@
    ||| w == "bug"@ ||| w == "to"@ ||| w == "in"@ ||| w == "it"@ ||| w == "of"@
    ||| w == "is"@ ||| w == "on"@ ||| w == "be"@ ||| w == "at"@ ||| w == "an"@
    ||| w == "by"@ ||| w == "we"@ ||| w == "or"@ ||| w == "as"@ ||| w == "if"@
    ||| w == "do"@ ||| w == "no"@ ||| w == "so"@ ||| w == "up"@
}

/// A query word worth searching for: longer than one byte, not a stopword.
pub open spec fn is_query_term(w: Seq<char>) -> bool {
    utf8_len(w) > 1 && !is_stopword(w)
}

/// The query words of `ws`, in order.
pub open spec fn query_terms(ws: Seq<Seq<char>>) -> Seq<Seq<char>>
    decreases ws.len(),
{
    if ws.len() == 0 {
        seq![]
    } else if is_query_term(ws.last()) {
        query_terms(ws.drop_last()).push(ws.last())
    } else {
        query_terms(ws.drop_last())
    }
}

/// A term with `.`, `/`, `_` or `-` is quoted for an exact match.
pub open spec fn quote_term(t: Seq<char>) -> Seq<char> {
    if t.contains('.') || t.contains('/') || t.contains('_') || t.contains('-') {
        seq!['"'] + t + seq!['"']
    } else {
        t
    }
}

/// The FTS5 query for a task: its search terms, compound ones quoted,
/// joined with ` OR ` (empty when no term is left).
pub open spec fn fts_query(query: Seq<char>) -> Seq<char> {
    join(query_terms(words(query)).map_values(|t: Seq<char>| quote_term(t)), " OR "@)
}

fn stopword(w: &[char]) -> (r: bool)
    ensures
        r == is_stopword(w@),
{
    chars_are(w, "the") || chars_are(w, "and") || chars_are(w, "for") || chars_are(w, "are")
        || chars_are(w, "but") || chars_are(w, "not") || chars_are(w, "you") || chars_are(w, "all")
        || chars_are(w, "can") || chars_are(w, "had") || chars_are(w, "her") || chars_are(w, "was")
        || chars_are(w, "one") || chars_are(w, "our") || chars_are(w, "out") || chars_are(w, "has")
        || chars_are(w, "get") || chars_are(w, "its") || chars_are(w, "how") || chars_are(w, "why")
        || chars_are(w, "use") || chars_are(w, "set") || chars_are(w, "add") || chars_are(w, "fix")
        || chars_are(w, "new") || chars_are(w, "bug") || chars_are(w, "to") || chars_are(w, "in")
        || chars_are(w, "it") || chars_are(w, "of") || chars_are(w, "is") || chars_are(w, "on")
        || chars_are(w, "be") || chars_are(w, "at") || chars_are(w, "an") || chars_are(w, "by")
        || chars_are(w, "we") || chars_are(w, "or") || chars_are(w, "as") || chars_are(w, "if")
        || chars_are(w, "do") || chars_are(w, "no") || chars_are(w, "so") || chars_are(w, "up")
}

/// Whether `c` occurs in `v`.
pub fn has_char(v: &[char], c: char) -> (r: bool)
    ensures
        r == v@.contains(c),
{
    let mut i: usize = 0;
    while i < v.len()
        invariant
            i <= v@.len(),
            forall|j: int| 0 <= j < i ==> v@[j] != c,
        decreases v.len() - i,
    {
        if v[i] == c {
            assert(v@[i as int] == c);
            return true;
        }
        i += 1;
    }
    false
}

/// Whether the UTF-8 encoding of `v` is longer than one byte.
pub fn longer_than_one_byte(v: &[char]) -> (r: bool)
    ensures
        r == (utf8_len(v@) > 1),
{
    if v.len() == 0 {
        return false;
    }
    proof {
        crate::text::lemma_utf8_len_ge_len(v@);
        crate::text::lemma_utf8_len_ge_len(v@.drop_first());
    }
    if v.len() >= 2 {
        return true;
    }
    crate::text::char_utf8_width(v[0]) > 1
}

/// Convert a user query to an FTS5-safe query.
pub fn to_fts_query(query: &str) -> (r: String)
    ensures
        r@ == fts_query(query@),
{
    let ws = split_words(&chars_of(query));
    let ghost wv = ws.deep_view();
    let mut parts: Vec<Vec<char>> = Vec::new();
    let ghost terms_so_far: Seq<Seq<char>> = seq![];
    let mut i: usize = 0;
    while i < ws.len()
        invariant
            i <= ws@.len(),
            wv == ws.deep_view(),
            parts.deep_view() == query_terms(wv.take(i as int)).map_values(
                |t: Seq<char>| quote_term(t),
            ),
        decreases ws.len() - i,
    {
        let w = &ws[i];
        proof {
            assert(wv.take(i + 1).drop_last() =~= wv.take(i as int));
            assert(wv.take(i + 1).last() == ws@[i as int]@);
        }
        if longer_than_one_byte(w) && !stopword(w) {
            let quoted = has_char(w, '.') || has_char(w, '/') || has_char(w, '_') || has_char(
                w,
                '-',
            );
            let mut t: Vec<char> = Vec::new();
            if quoted {
                t.push('"');
                append_chars(&mut t, w);
                t.push('"');
            } else {
                append_chars(&mut t, w);
            }
            proof {
                assert(t@ =~= quote_term(w@));
            }
            let ghost before = parts;
            parts.push(t);
            proof {
                lemma_push_deep_view(before, parts, t);
                assert(parts.deep_view() =~= query_terms(wv.take(i + 1)).map_values(
                    |t: Seq<char>| quote_term(t),
                ));
            }
        }
        i += 1;
    }
    proof {
        assert(wv.take(ws@.len() as int) =~= wv);
    }
    string_of(&join_with(&parts, &chars_of(" OR ")))
}


/// The common words a search query leaves out: the, and, for, are, but,
/// not, you, all, can, had, her, was, one, our, out, has, get, its, how,
/// why, use, set, add, fix, new, bug, to, in, it, of, is, on, be, at, an,
/// by, we, or, as, if, do, no, so, up.
pub open spec fn left_out_word(w: Seq<char>) -> bool {
    ||| w == "the"@ ||| w == "and"@ ||| w == "for"@ ||| w == "are"@ ||| w == "but"@
    ||| w == "not"@ ||| w == "you"@ ||| w == "all"@ ||| w == "can"@ ||| w == "had"@
    ||| w == "her"@ ||| w == "was"@ ||| w == "one"@ ||| w == "our"@ ||| w == "out"@
    ||| w == "has"@ ||| w == "get"@ ||| w == "its"@ ||| w == "how"@ ||| w == "why"@
    ||| w == "use"@ ||| w == "set"@ ||| w == "add"@ ||| w == "fix"@ ||| w == "new"@
    ||| w == "bug"@ ||| w == "to"@ ||| w == "in"@ ||| w == "it"@ ||| w == "of"@
    ||| w == "is"@ ||| w == "on"@ ||| w == "be"@ ||| w == "at"@ ||| w == "an"@
    ||| w == "by"@ ||| w == "we"@ ||| w == "or"@ ||| w == "as"@ ||| w == "if"@
    ||| w == "do"@ ||| w == "no"@ ||| w == "so"@ ||| w == "up"@
}

/// The word of `ws` a query term comes from.
spec fn term_origin(ws: Seq<Seq<char>>, i: int) -> int
    decreases ws.len(),
{
    if ws.len() == 0 {
        0
    } else if i < query_terms(ws.drop_last()).len() {
        term_origin(ws.drop_last(), i)
    } else {
        ws.len() - 1
    }
}

proof fn lemma_query_terms_members(ws: Seq<Seq<char>>)
    ensures
        forall|i: int|
            0 <= i < query_terms(ws).len() ==> 0 <= #[trigger] term_origin(ws, i) < ws.len()
                && query_terms(ws)[i] == ws[term_origin(ws, i)] && is_query_term(query_terms(ws)[i]),
        forall|j: int|
            0 <= j < ws.len() && is_query_term(#[trigger] ws[j]) ==> exists|i: int|
                0 <= i < query_terms(ws).len() && query_terms(ws)[i] == ws[j],
    decreases ws.len(),
{
    if ws.len() > 0 {
        let d = ws.drop_last();
        lemma_query_terms_members(d);
        let prev = query_terms(d);
        let out = query_terms(ws);
        assert(out == if is_query_term(ws.last()) { prev.push(ws.last()) } else { prev });
        assert forall|i: int| 0 <= i < out.len() implies 0 <= #[trigger] term_origin(ws, i) < ws.len()
            && out[i] == ws[term_origin(ws, i)] && is_query_term(out[i]) by {
            if i < prev.len() {
                assert(term_origin(ws, i) == term_origin(d, i));
                assert(out[i] == prev[i]);
                assert(ws[term_origin(d, i)] == d[term_origin(d, i)]);
            } else {
                assert(term_origin(ws, i) == ws.len() - 1);
            }
        }
        assert forall|j: int| 0 <= j < ws.len() && is_query_term(#[trigger] ws[j]) implies exists|i: int|
            0 <= i < out.len() && out[i] == ws[j] by {
            if j < d.len() {
                assert(ws[j] == d[j]);
                let i = choose|i: int| 0 <= i < prev.len() && prev[i] == d[j];
                assert(out[i] == prev[i]);
            } else {
                assert(out[prev.len() as int] == ws[j]);
            }
        }
    }
}

/// Law: the search terms of a query are exactly its words longer than one
/// byte that are not among the common words left out; so no term is a
/// left-out word (`for` is never a term), and every other such word is one.
pub proof fn law_query_terms(query: Seq<char>)
    ensures
        forall|i: int|
            0 <= i < query_terms(words(query)).len() ==> {
                let t = #[trigger] query_terms(words(query))[i];
                &&& utf8_len(t) > 1
                &&& !left_out_word(t)
                &&& exists|j: int| 0 <= j < words(query).len() && words(query)[j] == t
            },
        forall|j: int|
            0 <= j < words(query).len() && utf8_len(#[trigger] words(query)[j]) > 1 && !left_out_word(
                words(query)[j],
            ) ==> exists|i: int|
                0 <= i < query_terms(words(query)).len() && query_terms(words(query))[i] == words(
                    query,
                )[j],
{
    let ws = words(query);
    lemma_query_terms_members(ws);
    assert forall|w: Seq<char>| #[trigger] is_stopword(w) == left_out_word(w) by {}
    let ts = query_terms(ws);
    assert forall|i: int| 0 <= i < ts.len() implies {
        let t = #[trigger] ts[i];
        &&& utf8_len(t) > 1
        &&& !left_out_word(t)
        &&& exists|j: int| 0 <= j < ws.len() && ws[j] == t
    } by {
        let j = term_origin(ws, i);
        assert(ws[j] == ts[i]);
        assert(is_stopword(ts[i]) == left_out_word(ts[i]));
    }
    assert forall|j: int|
        0 <= j < ws.len() && utf8_len(#[trigger] ws[j]) > 1 && !left_out_word(ws[j]) implies exists|i: int|
        0 <= i < ts.len() && ts[i] == ws[j] by {
        assert(is_stopword(ws[j]) == left_out_word(ws[j]));
        assert(is_query_term(ws[j]));
    }
}


/// Law: the search query joins the search terms with ` OR `, a term
/// holding `.`, `/`, `_` or `-` wrapped in double quotes and any other
/// term as it is.
pub proof fn law_query_text(query: Seq<char>)
    ensures
        fts_query(query) == join(
            query_terms(words(query)).map_values(|t: Seq<char>| quote_term(t)),
            " OR "@,
        ),
        forall|t: Seq<char>|
            #[trigger] quote_term(t) == if (exists|k: int|
                0 <= k < t.len() && (t[k] == '.' || t[k] == '/' || t[k] == '_' || t[k] == '-')) {
                seq!['"'] + t + seq!['"']
            } else {
                t
            },
{
    assert forall|t: Seq<char>|
        #[trigger] quote_term(t) == if (exists|k: int|
            0 <= k < t.len() && (t[k] == '.' || t[k] == '/' || t[k] == '_' || t[k] == '-')) {
            seq!['"'] + t + seq!['"']
        } else {
            t
        } by {
        if exists|k: int| 0 <= k < t.len() && (t[k] == '.' || t[k] == '/' || t[k] == '_' || t[k] == '-') {
            let k = choose|k: int|
                0 <= k < t.len() && (t[k] == '.' || t[k] == '/' || t[k] == '_' || t[k] == '-');
            assert(t.contains(t[k]));
        }
    }
}

} // verus!
