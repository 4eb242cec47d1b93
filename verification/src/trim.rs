//! Trimming of selected files: comment, logging and blank-line removal, and
//! the formatted context pack.

use vstd::prelude::*;
use vstd::string::StringSliceAdditionalSpecFns;

use crate::signal::ScoredFile;
use crate::text::{
    append_chars, blank, chars_of, contains, decimal, decimal_chars, ends_with,
    has_prefix, has_substring, has_suffix, index_of_char, is_blank, is_ws, join, join_with,
    lemma_index_of_char, lemma_index_of_char_bounds, lemma_push_deep_view,
    lemma_trim_empty_iff_blank, lemma_trim_end_take, lemma_trim_start_props, lemma_trim_start_skip,
    trim_end, trim_start,
    lemma_utf8_len_concat, lines, lowercase, split_lines, starts_with,
    string_of, strip_cr, trim, trimmed, unicode_lowercase, utf8_len,
};

verus! {

broadcast use vstd::string::group_string_axioms;

/// Trims code files to fit the token budget: strips comments, blank lines
/// and logging while keeping signatures, types and core logic.
pub struct Trimmer;

/// Tokens for a byte length: four bytes per token, rounded up.
pub open spec fn tokens_for(byte_len: nat) -> nat {
    (byte_len + 3) / 4
}

/// A trimmed line that is a (non-doc) single-line comment.
pub open spec fn is_line_comment(t: Seq<char>) -> bool {
    (starts_with(t, "//"@) || starts_with(t, "# "@) || starts_with(t, "#!"@) || starts_with(
        t,
        "-- "@,
    )) && !(starts_with(t, "///"@) || starts_with(t, "/**"@))
}

/// A trimmed line whose lowercase form looks like a logging call.
pub open spec fn is_logging(t: Seq<char>) -> bool {
    let l = unicode_lowercase(t);
    ||| contains(l, "console.log"@)
    ||| contains(l, "logger.debug"@)
    ||| contains(l, "print("@)
    ||| contains(l, "println!("@)
    ||| contains(l, "dbg!("@)
    ||| contains(l, "log::debug"@)
    ||| contains(l, "debug!("@)
}

/// One step of the line filter: the kept lines so far and whether a block
/// comment is open, after looking at `line`.
pub open spec fn trim_step(state: (Seq<Seq<char>>, bool), line: Seq<char>) -> (
    Seq<Seq<char>>,
    bool,
) {
    let (out, in_block) = state;
    let t = trim(line);
    if starts_with(t, "/*"@) && !ends_with(t, "*/"@) {
        (out, true)
    } else if in_block {
        (out, !contains(t, "*/"@))
    } else if is_line_comment(t) {
        (out, false)
    } else if is_logging(t) {
        (out, false)
    } else if t.len() == 0 {
        (out.push(seq![]), false)
    } else {
        (out.push(line), false)
    }
}

/// The line filter run over `ls`.
pub open spec fn trim_pass(ls: Seq<Seq<char>>) -> (Seq<Seq<char>>, bool)
    decreases ls.len(),
{
    if ls.len() == 0 {
        (seq![], false)
    } else {
        trim_step(trim_pass(ls.drop_last()), ls.last())
    }
}

/// The lines of `ls` that are not blank.
pub open spec fn non_blank(ls: Seq<Seq<char>>) -> Seq<Seq<char>>
    decreases ls.len(),
{
    if ls.len() == 0 {
        seq![]
    } else if is_blank(ls.last()) {
        non_blank(ls.drop_last())
    } else {
        non_blank(ls.drop_last()).push(ls.last())
    }
}

/// The lines of the trimmed text: the lines the filter keeps, joined by
/// newlines and split into lines again, without the blank ones.
pub open spec fn kept_lines(src: Seq<char>) -> Seq<Seq<char>> {
    non_blank(lines(join(trim_pass(lines(src)).0, "\n"@)))
}

/// The trimmed text of a source: its kept lines joined by newlines.
pub open spec fn trimmed_text(src: Seq<char>) -> Seq<char> {
    join(kept_lines(src), "\n"@)
}

/// `out` arises from `ls` by dropping lines and shortening kept ones.
pub open spec fn shrinks(out: Seq<Seq<char>>, ls: Seq<Seq<char>>) -> bool
    decreases ls.len(),
{
    if ls.len() == 0 {
        out.len() == 0
    } else {
        ||| shrinks(out, ls.drop_last())
        ||| out.len() > 0 && shrinks(out.drop_last(), ls.drop_last()) && utf8_len(out.last())
            <= utf8_len(ls.last())
    }
}

proof fn lemma_join_last(ls: Seq<Seq<char>>, sep: Seq<char>)
    requires
        ls.len() > 0,
    ensures
        utf8_len(join(ls.drop_last(), sep)) <= utf8_len(join(ls, sep)),
        utf8_len(ls.last()) <= utf8_len(join(ls, sep)),
{
    if ls.len() == 1 {
        assert(join(ls.drop_last(), sep).len() == 0);
    } else {
        let a = join(ls.drop_last(), sep);
        lemma_utf8_len_concat(a + sep, ls.last());
        lemma_utf8_len_concat(a, sep);
    }
}

proof fn lemma_shrinks_join(out: Seq<Seq<char>>, ls: Seq<Seq<char>>, sep: Seq<char>)
    requires
        shrinks(out, ls),
    ensures
        utf8_len(join(out, sep)) <= utf8_len(join(ls, sep)),
    decreases ls.len(),
{
    if ls.len() == 0 {
        assert(out.len() == 0);
    } else if shrinks(out, ls.drop_last()) {
        lemma_shrinks_join(out, ls.drop_last(), sep);
        lemma_join_last(ls, sep);
    } else {
        assert(out.len() > 0 && shrinks(out.drop_last(), ls.drop_last()) && utf8_len(out.last())
            <= utf8_len(ls.last()));
        lemma_join_last(ls, sep);
        if out.len() == 1 {
            assert(join(out, sep) == out.last());
        } else {
            lemma_shrinks_join(out.drop_last(), ls.drop_last(), sep);
            if ls.drop_last().len() == 0 {
                assert(out.drop_last().len() == 0);
            }
            let a = join(out.drop_last(), sep);
            let b = join(ls.drop_last(), sep);
            lemma_utf8_len_concat(a + sep, out.last());
            lemma_utf8_len_concat(a, sep);
            lemma_utf8_len_concat(b + sep, ls.last());
            lemma_utf8_len_concat(b, sep);
        }
    }
}

proof fn lemma_trim_pass_shrinks(ls: Seq<Seq<char>>)
    ensures
        shrinks(trim_pass(ls).0, ls),
    decreases ls.len(),
{
    if ls.len() > 0 {
        lemma_trim_pass_shrinks(ls.drop_last());
        let prev = trim_pass(ls.drop_last()).0;
        let out = trim_pass(ls).0;
        if out.len() != prev.len() {
            assert(out.drop_last() =~= prev);
            assert(utf8_len(seq![]) == 0);
        }
    }
}

proof fn lemma_non_blank_shrinks(ls: Seq<Seq<char>>)
    ensures
        shrinks(non_blank(ls), ls),
    decreases ls.len(),
{
    if ls.len() > 0 {
        lemma_non_blank_shrinks(ls.drop_last());
        if !is_blank(ls.last()) {
            assert(non_blank(ls).drop_last() =~= non_blank(ls.drop_last()));
        }
    }
}

proof fn lemma_join_cons(a: Seq<char>, rest: Seq<Seq<char>>, sep: Seq<char>)
    ensures
        join(seq![a] + rest, sep) == if rest.len() == 0 {
            a
        } else {
            a + sep + join(rest, sep)
        },
    decreases rest.len(),
{
    if rest.len() == 0 {
        assert(seq![a] + rest =~= seq![a]);
    } else if rest.len() == 1 {
        assert((seq![a] + rest).drop_last() =~= seq![a]);
        assert(join(seq![a], sep) == a);
        assert((seq![a] + rest).last() == rest[0]);
        assert(join(rest, sep) == rest[0]);
    } else {
        lemma_join_cons(a, rest.drop_last(), sep);
        assert((seq![a] + rest).drop_last() =~= seq![a] + rest.drop_last());
        assert((seq![a] + rest).last() == rest.last());
        assert(join(rest, sep) == join(rest.drop_last(), sep) + sep + rest.last());
        assert(a + sep + join(rest.drop_last(), sep) + sep + rest.last() =~= a + sep + (join(
            rest.drop_last(),
            sep,
        ) + sep + rest.last()));
    }
}

/// Joining the lines of `s` with `\n` never needs more bytes than `s`.
proof fn lemma_join_lines_shorter(s: Seq<char>)
    ensures
        utf8_len(join(lines(s), "\n"@)) <= utf8_len(s),
    decreases s.len(),
{
    reveal_strlit("\n");
    if s.len() > 0 {
        let k = crate::text::index_of_char(s, '\n');
        crate::text::lemma_index_of_char_bounds(s, '\n');
        if k < s.len() {
            let head = s.take(k);
            let rest = s.skip(k + 1);
            lemma_join_lines_shorter(rest);
            lemma_join_cons(crate::text::strip_cr(head), lines(rest), "\n"@);
            assert(s =~= head + seq![s[k]] + rest);
            lemma_utf8_len_concat(head + seq![s[k]], rest);
            lemma_utf8_len_concat(head, seq![s[k]]);
            crate::text::lemma_utf8_len_push(Seq::<char>::empty(), '\n');
            assert(Seq::<char>::empty().push('\n') =~= "\n"@);
            assert(seq![s[k]] =~= "\n"@);
            let h2 = crate::text::strip_cr(head);
            if h2 != head {
                crate::text::lemma_utf8_len_push(h2, head.last());
                assert(h2.push(head.last()) =~= head);
            }
            if lines(rest).len() > 0 {
                let j = join(lines(rest), "\n"@);
                lemma_utf8_len_concat(h2 + "\n"@, j);
                lemma_utf8_len_concat(h2, "\n"@);
            }
        }
    }
}

/// Trimming never lengthens the text.
pub proof fn lemma_trimmed_text_shorter(src: Seq<char>)
    ensures
        utf8_len(trimmed_text(src)) <= utf8_len(src),
{
    let nl = "\n"@;
    let pass = trim_pass(lines(src)).0;
    let joined = join(pass, nl);
    lemma_trim_pass_shrinks(lines(src));
    lemma_shrinks_join(pass, lines(src), nl);
    lemma_join_lines_shorter(src);
    lemma_non_blank_shrinks(lines(joined));
    lemma_shrinks_join(non_blank(lines(joined)), lines(joined), nl);
    lemma_join_lines_shorter(joined);
}

/// Law: trimming never increases the token estimate of a file.
pub proof fn law_trim_never_adds_tokens(src: Seq<char>)
    ensures
        tokens_for(utf8_len(trimmed_text(src))) <= tokens_for(utf8_len(src)),
{
    lemma_trimmed_text_shorter(src);
}

/// `xs` arises from `ys` by dropping lines, keeping each other line as it
/// is or without its final `\r`, in order.
pub open spec fn drops_lines(xs: Seq<Seq<char>>, ys: Seq<Seq<char>>) -> bool
    decreases ys.len(),
{
    if ys.len() == 0 {
        xs.len() == 0
    } else {
        ||| drops_lines(xs, ys.drop_last())
        ||| (xs.len() > 0 && drops_lines(xs.drop_last(), ys.drop_last()) && (xs.last() == ys.last()
            || xs.last() == strip_cr(ys.last())))
    }
}

/// `xs` is a subsequence of `ys`.
spec fn subseq(xs: Seq<Seq<char>>, ys: Seq<Seq<char>>) -> bool
    decreases ys.len(),
{
    if ys.len() == 0 {
        xs.len() == 0
    } else {
        ||| subseq(xs, ys.drop_last())
        ||| (xs.len() > 0 && subseq(xs.drop_last(), ys.drop_last()) && xs.last() == ys.last())
    }
}

/// `xs` arises from `ys` by dropping lines and emptying others, in order.
spec fn drops_or_empties(xs: Seq<Seq<char>>, ys: Seq<Seq<char>>) -> bool
    decreases ys.len(),
{
    if ys.len() == 0 {
        xs.len() == 0
    } else {
        ||| drops_or_empties(xs, ys.drop_last())
        ||| (xs.len() > 0 && drops_or_empties(xs.drop_last(), ys.drop_last()) && (xs.last()
            == ys.last() || xs.last().len() == 0))
    }
}

/// The lines of `ks` joined by newlines, when no element holds a newline:
/// every element but the last loses a final `\r`, and an empty last one
/// gives no line.
spec fn lines_of_joined(ks: Seq<Seq<char>>) -> Seq<Seq<char>> {
    if ks.len() == 0 {
        seq![]
    } else {
        ks.drop_last().map_values(|k: Seq<char>| strip_cr(k)) + if ks.last().len() > 0 {
            seq![ks.last()]
        } else {
            Seq::<Seq<char>>::empty()
        }
    }
}

spec fn newline_free(s: Seq<char>) -> bool {
    forall|k: int| 0 <= k < s.len() ==> s[k] != '\n'
}

proof fn lemma_lines_newline_free(s: Seq<char>)
    ensures
        forall|i: int| 0 <= i < lines(s).len() ==> newline_free(#[trigger] lines(s)[i]),
    decreases s.len(),
{
    if s.len() > 0 {
        let k = index_of_char(s, '\n');
        lemma_index_of_char_bounds(s, '\n');
        if k < s.len() {
            lemma_lines_newline_free(s.skip(k + 1));
            let head = strip_cr(s.take(k));
            assert(newline_free(head)) by {
                assert forall|m: int| 0 <= m < head.len() implies head[m] != '\n' by {
                    assert(head[m] == s[m]);
                }
            }
            assert forall|i: int| 0 <= i < lines(s).len() implies newline_free(#[trigger] lines(s)[i]) by {
                if i > 0 {
                    assert(lines(s)[i] == lines(s.skip(k + 1))[i - 1]);
                }
            }
        }
    }
}

proof fn lemma_trim_pass_empties(ls: Seq<Seq<char>>)
    ensures
        drops_or_empties(trim_pass(ls).0, ls),
    decreases ls.len(),
{
    if ls.len() > 0 {
        lemma_trim_pass_empties(ls.drop_last());
        let prev = trim_pass(ls.drop_last()).0;
        let out = trim_pass(ls).0;
        if out.len() != prev.len() {
            assert(out.drop_last() =~= prev);
        }
    }
}

proof fn lemma_trim_pass_newline_free(ls: Seq<Seq<char>>)
    requires
        forall|i: int| 0 <= i < ls.len() ==> newline_free(#[trigger] ls[i]),
    ensures
        forall|i: int|
            0 <= i < trim_pass(ls).0.len() ==> newline_free(#[trigger] trim_pass(ls).0[i]),
    decreases ls.len(),
{
    if ls.len() > 0 {
        let d = ls.drop_last();
        assert forall|i: int| 0 <= i < d.len() implies newline_free(#[trigger] d[i]) by {
            assert(d[i] == ls[i]);
        }
        lemma_trim_pass_newline_free(d);
        let prev = trim_pass(d).0;
        let out = trim_pass(ls).0;
        assert forall|i: int| 0 <= i < out.len() implies newline_free(#[trigger] out[i]) by {
            if i < prev.len() {
                assert(out[i] == prev[i]);
            } else {
                assert(ls[ls.len() - 1] == ls.last());
            }
        }
    }
}

proof fn lemma_lines_of_join(ks: Seq<Seq<char>>)
    requires
        forall|i: int| 0 <= i < ks.len() ==> newline_free(#[trigger] ks[i]),
    ensures
        lines(join(ks, "\n"@)) == lines_of_joined(ks),
    decreases ks.len(),
{
    reveal_strlit("\n");
    if ks.len() == 1 {
        let t = ks[0];
        assert(join(ks, "\n"@) == t);
        lemma_index_of_char(t, '\n', t.len() as int);
        assert(ks.drop_last().map_values(|k: Seq<char>| strip_cr(k)) =~= Seq::<Seq<char>>::empty());
        if t.len() > 0 {
            assert(lines(t) == seq![t]);
        }
        assert(lines(t) =~= lines_of_joined(ks));
    } else if ks.len() >= 2 {
        let rest = ks.drop_first();
        assert(ks =~= seq![ks[0]] + rest);
        lemma_join_cons(ks[0], rest, "\n"@);
        let jr = join(rest, "\n"@);
        let t = ks[0] + "\n"@ + jr;
        assert(join(ks, "\n"@) == t);
        let k = ks[0].len() as int;
        assert(t[k] == '\n');
        assert forall|i: int| 0 <= i < k implies t[i] != '\n' by {
            assert(t[i] == ks[0][i]);
        }
        lemma_index_of_char(t, '\n', k);
        assert(t.take(k) =~= ks[0]);
        assert(t.skip(k + 1) =~= jr);
        assert(lines(t) == seq![strip_cr(ks[0])] + lines(jr));
        assert forall|i: int| 0 <= i < rest.len() implies newline_free(#[trigger] rest[i]) by {
            assert(rest[i] == ks[i + 1]);
        }
        lemma_lines_of_join(rest);
        assert(rest.last() == ks.last());
        assert(ks.drop_last().map_values(|k: Seq<char>| strip_cr(k)) =~= seq![strip_cr(ks[0])]
            + rest.drop_last().map_values(|k: Seq<char>| strip_cr(k)));
        assert(lines(t) =~= lines_of_joined(ks));
    }
}

proof fn lemma_strip_cr_all_drops(ys: Seq<Seq<char>>)
    ensures
        drops_lines(ys.map_values(|k: Seq<char>| strip_cr(k)), ys),
    decreases ys.len(),
{
    if ys.len() > 0 {
        lemma_strip_cr_all_drops(ys.drop_last());
        assert(ys.map_values(|k: Seq<char>| strip_cr(k)).drop_last() =~= ys.drop_last().map_values(
            |k: Seq<char>| strip_cr(k),
        ));
    }
}

proof fn lemma_lines_of_joined_drops(ks: Seq<Seq<char>>)
    ensures
        drops_lines(lines_of_joined(ks), ks),
{
    if ks.len() > 0 {
        let a = ks.drop_last().map_values(|k: Seq<char>| strip_cr(k));
        lemma_strip_cr_all_drops(ks.drop_last());
        if ks.last().len() > 0 {
            assert(lines_of_joined(ks).drop_last() =~= a);
            assert(lines_of_joined(ks).last() == ks.last());
        } else {
            assert(lines_of_joined(ks) =~= a);
        }
    }
}

proof fn lemma_non_blank_subseq(ls: Seq<Seq<char>>)
    ensures
        subseq(non_blank(ls), ls),
        forall|i: int| 0 <= i < non_blank(ls).len() ==> !is_blank(#[trigger] non_blank(ls)[i]),
    decreases ls.len(),
{
    if ls.len() > 0 {
        let d = ls.drop_last();
        lemma_non_blank_subseq(d);
        let prev = non_blank(d);
        let out = non_blank(ls);
        if !is_blank(ls.last()) {
            assert(out.drop_last() =~= prev);
        }
        assert forall|i: int| 0 <= i < out.len() implies !is_blank(#[trigger] out[i]) by {
            if i < prev.len() {
                assert(out[i] == prev[i]);
            }
        }
    }
}

proof fn lemma_subseq_then_drops(xs: Seq<Seq<char>>, ys: Seq<Seq<char>>, zs: Seq<Seq<char>>)
    requires
        subseq(xs, ys),
        drops_lines(ys, zs),
    ensures
        drops_lines(xs, zs),
    decreases zs.len(),
{
    if zs.len() > 0 {
        if drops_lines(ys, zs.drop_last()) {
            lemma_subseq_then_drops(xs, ys, zs.drop_last());
        } else if subseq(xs, ys.drop_last()) {
            lemma_subseq_then_drops(xs, ys.drop_last(), zs.drop_last());
        } else {
            lemma_subseq_then_drops(xs.drop_last(), ys.drop_last(), zs.drop_last());
        }
    }
}

proof fn lemma_drops_then_empties(xs: Seq<Seq<char>>, ys: Seq<Seq<char>>, zs: Seq<Seq<char>>)
    requires
        drops_lines(xs, ys),
        drops_or_empties(ys, zs),
        forall|i: int| 0 <= i < xs.len() ==> !is_blank(#[trigger] xs[i]),
    ensures
        drops_lines(xs, zs),
    decreases zs.len(),
{
    if zs.len() > 0 {
        if drops_or_empties(ys, zs.drop_last()) {
            lemma_drops_then_empties(xs, ys, zs.drop_last());
        } else if drops_lines(xs, ys.drop_last()) {
            lemma_drops_then_empties(xs, ys.drop_last(), zs.drop_last());
        } else {
            let xd = xs.drop_last();
            assert forall|i: int| 0 <= i < xd.len() implies !is_blank(#[trigger] xd[i]) by {
                assert(xd[i] == xs[i]);
            }
            lemma_drops_then_empties(xd, ys.drop_last(), zs.drop_last());
            assert(!is_blank(xs[xs.len() - 1]));
            if ys.last().len() == 0 {
                assert(strip_cr(ys.last()) == ys.last());
                assert(xs.last().len() == 0);
            }
        }
    }
}

/// Law: trimming only drops lines. The trimmed text is its kept lines
/// joined by newlines; none of them is blank, and they are lines of the
/// source in their order there (at most without a final `\r`), never
/// rewritten ones.
pub proof fn law_trim_only_drops_lines(src: Seq<char>)
    ensures
        trimmed_text(src) == join(kept_lines(src), "\n"@),
        forall|i: int| 0 <= i < kept_lines(src).len() ==> !is_blank(#[trigger] kept_lines(src)[i]),
        drops_lines(kept_lines(src), lines(src)),
{
    let ls = lines(src);
    let ks = trim_pass(ls).0;
    let ms = lines(join(ks, "\n"@));
    lemma_lines_newline_free(src);
    lemma_trim_pass_newline_free(ls);
    lemma_lines_of_join(ks);
    lemma_lines_of_joined_drops(ks);
    lemma_non_blank_subseq(ms);
    lemma_subseq_then_drops(non_blank(ms), ms, ks);
    lemma_trim_pass_empties(ls);
    lemma_drops_then_empties(non_blank(ms), ks, ls);
}

/// A line the filter keeps when no block comment is open before it: not
/// blank, not opening a block comment, not a single-line comment (doc
/// comments count as code) and not a logging call.
pub open spec fn is_code_line(line: Seq<char>) -> bool {
    let t = trim(line);
    &&& t.len() > 0
    &&& !(starts_with(t, "/*"@) && !ends_with(t, "*/"@))
    &&& !is_line_comment(t)
    &&& !is_logging(t)
}

/// Whether a block comment is still open after the lines `ls`.
pub open spec fn block_open_after(ls: Seq<Seq<char>>) -> bool {
    trim_pass(ls).1
}

proof fn lemma_trim_pass_prefix(ls: Seq<Seq<char>>, j: int)
    requires
        0 <= j <= ls.len(),
    ensures
        trim_pass(ls.take(j)).0.len() <= trim_pass(ls).0.len(),
        trim_pass(ls).0.take(trim_pass(ls.take(j)).0.len() as int) == trim_pass(ls.take(j)).0,
    decreases ls.len() - j,
{
    if j == ls.len() {
        assert(ls.take(j) =~= ls);
        assert(trim_pass(ls).0.take(trim_pass(ls).0.len() as int) =~= trim_pass(ls).0);
    } else {
        let d = ls.drop_last();
        assert(d.take(j) =~= ls.take(j));
        lemma_trim_pass_prefix(d, j);
        let a = trim_pass(ls.take(j)).0;
        let b = trim_pass(d).0;
        let c = trim_pass(ls).0;
        assert(c.take(b.len() as int) =~= b);
        assert(c.take(a.len() as int) =~= b.take(a.len() as int));
    }
}

proof fn lemma_non_blank_keeps(ls: Seq<Seq<char>>, p: int)
    requires
        0 <= p < ls.len(),
        !is_blank(ls[p]),
    ensures
        exists|i: int| 0 <= i < non_blank(ls).len() && #[trigger] non_blank(ls)[i] == ls[p],
    decreases ls.len(),
{
    let d = ls.drop_last();
    if p == ls.len() - 1 {
        let i = non_blank(d).len() as int;
        assert(non_blank(ls)[i] == ls[p]);
    } else {
        assert(d[p] == ls[p]);
        lemma_non_blank_keeps(d, p);
        let i = choose|i: int| 0 <= i < non_blank(d).len() && #[trigger] non_blank(d)[i] == d[p];
        assert(non_blank(ls)[i] == non_blank(d)[i]);
    }
}

proof fn lemma_strip_cr_not_blank(l: Seq<char>)
    requires
        !is_blank(l),
    ensures
        !is_blank(strip_cr(l)),
{
    let q = choose|q: int| 0 <= q < l.len() && !is_ws(#[trigger] l[q]);
    if strip_cr(l) != l {
        assert(is_ws(l[l.len() - 1]));
        assert(strip_cr(l)[q] == l[q]);
    }
}

/// Law: trimming keeps the code. A line that is not blank, opens no block
/// comment, is no single-line comment or logging call, and comes when no
/// block comment is open, is one of the trimmed text's lines (at most
/// without a final `\r`).
pub proof fn law_trim_keeps_code_lines(src: Seq<char>, j: int)
    requires
        0 <= j < lines(src).len(),
        !block_open_after(lines(src).take(j)),
        is_code_line(lines(src)[j]),
    ensures
        exists|i: int|
            0 <= i < kept_lines(src).len() && (#[trigger] kept_lines(src)[i] == lines(src)[j]
                || kept_lines(src)[i] == strip_cr(lines(src)[j])),
{
    reveal_strlit("\n");
    let ls = lines(src);
    let l = ls[j];
    let ks = trim_pass(ls).0;
    assert(ls.take(j + 1).drop_last() =~= ls.take(j));
    assert(ls.take(j + 1).last() == l);
    let before = trim_pass(ls.take(j)).0;
    let upto = trim_pass(ls.take(j + 1)).0;
    assert(upto == before.push(l));
    lemma_trim_pass_prefix(ls, j + 1);
    let p = before.len() as int;
    assert(ks.take(upto.len() as int)[p] == l);
    assert(ks[p] == l);
    lemma_trim_empty_iff_blank(l);
    assert(!is_blank(l));
    lemma_lines_newline_free(src);
    lemma_trim_pass_newline_free(ls);
    lemma_lines_of_join(ks);
    let ms = lines(join(ks, "\n"@));
    assert(ms == lines_of_joined(ks));
    if p < ks.len() - 1 {
        assert(ms[p] == strip_cr(l));
        lemma_strip_cr_not_blank(l);
    } else {
        assert(l.len() > 0);
        assert(ms[p] == l);
    }
    lemma_non_blank_keeps(ms, p);
    assert(kept_lines(src) == non_blank(ms));
    let i = choose|i: int| 0 <= i < non_blank(ms).len() && #[trigger] non_blank(ms)[i] == ms[p];
    assert(kept_lines(src)[i] == ms[p]);
    assert(ms[p] == l || ms[p] == strip_cr(l));
}

proof fn lemma_trim_strip_cr(x: Seq<char>)
    ensures
        trim(strip_cr(x)) == trim(x),
{
    if x.len() > 0 && x.last() == '\r' {
        let y = x.drop_last();
        assert(is_ws(x.last()));
        lemma_trim_start_props(x);
        let t = trim_start(x);
        let a = x.len() - t.len();
        assert forall|i: int| 0 <= i < a && i < y.len() implies is_ws(#[trigger] y[i]) by {
            assert(y[i] == x[i]);
        }
        if t.len() == 0 {
            lemma_trim_start_skip(y, y.len() as int);
            assert(y.skip(y.len() as int) =~= Seq::<char>::empty());
            assert(trim_start(Seq::<char>::empty()) == Seq::<char>::empty());
        } else {
            assert(t.last() == x.last());
            assert(t.len() >= 2);
            lemma_trim_start_skip(y, a);
            assert(y.skip(a) =~= t.drop_last());
            assert(t.drop_last()[0] == t[0]);
            assert(trim_start(t.drop_last()) == t.drop_last());
            lemma_trim_end_take(t, t.len() - 1);
            assert(t.take(t.len() - 1) =~= t.drop_last());
        }
    }
}

/// A line the trimmer keeps whatever comes before it, holding no newline.
spec fn kept_anywhere(x: Seq<char>) -> bool {
    is_code_line(x) && newline_free(x)
}

proof fn lemma_kept_anywhere_strip_cr(x: Seq<char>)
    requires
        kept_anywhere(x),
    ensures
        kept_anywhere(strip_cr(x)),
{
    lemma_trim_strip_cr(x);
    let y = strip_cr(x);
    assert forall|k: int| 0 <= k < y.len() implies y[k] != '\n' by {
        assert(y[k] == x[k]);
    }
}

proof fn lemma_trim_pass_kept_anywhere(ls: Seq<Seq<char>>)
    requires
        forall|i: int| 0 <= i < ls.len() ==> newline_free(#[trigger] ls[i]),
    ensures
        forall|i: int|
            0 <= i < trim_pass(ls).0.len() ==> (#[trigger] trim_pass(ls).0[i]).len() == 0
                || kept_anywhere(trim_pass(ls).0[i]),
    decreases ls.len(),
{
    if ls.len() > 0 {
        let d = ls.drop_last();
        assert forall|i: int| 0 <= i < d.len() implies newline_free(#[trigger] d[i]) by {
            assert(d[i] == ls[i]);
        }
        lemma_trim_pass_kept_anywhere(d);
        let prev = trim_pass(d).0;
        let out = trim_pass(ls).0;
        assert(newline_free(ls[ls.len() - 1]));
        assert forall|i: int| 0 <= i < out.len() implies (#[trigger] out[i]).len() == 0
            || kept_anywhere(out[i]) by {
            if i < prev.len() {
                assert(out[i] == prev[i]);
            } else {
                assert(ls[ls.len() - 1] == ls.last());
            }
        }
    }
}

proof fn lemma_lines_of_joined_kept_anywhere(ks: Seq<Seq<char>>)
    requires
        forall|i: int| 0 <= i < ks.len() ==> (#[trigger] ks[i]).len() == 0 || kept_anywhere(ks[i]),
    ensures
        forall|i: int|
            0 <= i < lines_of_joined(ks).len() ==> (#[trigger] lines_of_joined(ks)[i]).len() == 0
                || kept_anywhere(lines_of_joined(ks)[i]),
{
    if ks.len() > 0 {
        let m = lines_of_joined(ks);
        assert forall|i: int| 0 <= i < m.len() implies (#[trigger] m[i]).len() == 0
            || kept_anywhere(m[i]) by {
            if i < ks.len() - 1 {
                assert(m[i] == strip_cr(ks[i]));
                if ks[i].len() != 0 {
                    lemma_kept_anywhere_strip_cr(ks[i]);
                }
            } else {
                assert(m[i] == ks[ks.len() - 1]);
            }
        }
    }
}

proof fn lemma_non_blank_kept_anywhere(ls: Seq<Seq<char>>)
    requires
        forall|i: int| 0 <= i < ls.len() ==> (#[trigger] ls[i]).len() == 0 || kept_anywhere(ls[i]),
    ensures
        forall|i: int| 0 <= i < non_blank(ls).len() ==> kept_anywhere(#[trigger] non_blank(ls)[i]),
    decreases ls.len(),
{
    if ls.len() > 0 {
        let d = ls.drop_last();
        assert forall|i: int| 0 <= i < d.len() implies (#[trigger] d[i]).len() == 0 || kept_anywhere(
            d[i],
        ) by {
            assert(d[i] == ls[i]);
        }
        lemma_non_blank_kept_anywhere(d);
        let prev = non_blank(d);
        let out = non_blank(ls);
        assert(ls[ls.len() - 1] == ls.last());
        if ls.last().len() == 0 {
            assert(is_blank(ls.last()));
        }
        assert forall|i: int| 0 <= i < out.len() implies kept_anywhere(#[trigger] out[i]) by {
            if i < prev.len() {
                assert(out[i] == prev[i]);
            }
        }
    }
}

proof fn lemma_trim_pass_all_code(ls: Seq<Seq<char>>)
    requires
        forall|i: int| 0 <= i < ls.len() ==> is_code_line(#[trigger] ls[i]),
    ensures
        trim_pass(ls) == (ls, false),
    decreases ls.len(),
{
    if ls.len() > 0 {
        let d = ls.drop_last();
        assert forall|i: int| 0 <= i < d.len() implies is_code_line(#[trigger] d[i]) by {
            assert(d[i] == ls[i]);
        }
        lemma_trim_pass_all_code(d);
        assert(is_code_line(ls[ls.len() - 1]));
        assert(d.push(ls.last()) =~= ls);
    } else {
        assert(trim_pass(ls).0 =~= ls);
    }
}

proof fn lemma_non_blank_all(ls: Seq<Seq<char>>)
    requires
        forall|i: int| 0 <= i < ls.len() ==> !is_blank(#[trigger] ls[i]),
    ensures
        non_blank(ls) == ls,
    decreases ls.len(),
{
    if ls.len() > 0 {
        let d = ls.drop_last();
        assert forall|i: int| 0 <= i < d.len() implies !is_blank(#[trigger] d[i]) by {
            assert(d[i] == ls[i]);
        }
        lemma_non_blank_all(d);
        assert(!is_blank(ls[ls.len() - 1]));
        assert(d.push(ls.last()) =~= ls);
    } else {
        assert(non_blank(ls) =~= ls);
    }
}

/// Law: no line of trimmed text is noise. Every line of the result is
/// non-blank; in lowercase it mentions none of `console.log`,
/// `logger.debug`, `print(`, `println!(`, `dbg!(`, `log::debug`, `debug!(`;
/// it is no single-line comment (`//`, `# `, `#!`, `-- `, unless it is a
/// `///` or `/**` doc comment); and it opens no block comment (`/*` without
/// a closing `*/` on the line). All judged on the line without surrounding
/// whitespace.
pub proof fn law_trimmed_lines_are_not_noise(src: Seq<char>)
    ensures
        forall|i: int|
            0 <= i < lines(trimmed_text(src)).len() ==> {
                let t = trim(#[trigger] lines(trimmed_text(src))[i]);
                let l = unicode_lowercase(t);
                &&& t.len() > 0
                &&& !contains(l, "console.log"@)
                &&& !contains(l, "logger.debug"@)
                &&& !contains(l, "print("@)
                &&& !contains(l, "println!("@)
                &&& !contains(l, "dbg!("@)
                &&& !contains(l, "log::debug"@)
                &&& !contains(l, "debug!("@)
                &&& !((starts_with(t, "//"@) || starts_with(t, "# "@) || starts_with(t, "#!"@)
                    || starts_with(t, "-- "@)) && !starts_with(t, "///"@) && !starts_with(t, "/**"@))
                &&& !(starts_with(t, "/*"@) && !ends_with(t, "*/"@))
            },
{
    reveal_strlit("\n");
    let nl = "\n"@;
    let ls = lines(src);
    let ks = trim_pass(ls).0;
    let n = kept_lines(src);
    lemma_lines_newline_free(src);
    lemma_trim_pass_newline_free(ls);
    lemma_trim_pass_kept_anywhere(ls);
    lemma_lines_of_join(ks);
    lemma_lines_of_joined_kept_anywhere(ks);
    lemma_non_blank_kept_anywhere(lines(join(ks, nl)));
    assert(trimmed_text(src) == join(n, nl));
    assert forall|i: int| 0 <= i < n.len() implies newline_free(#[trigger] n[i]) by {
        assert(kept_anywhere(n[i]));
    }
    lemma_lines_of_join(n);
    let out = lines(trimmed_text(src));
    assert(out == lines_of_joined(n));
    assert forall|i: int| 0 <= i < out.len() implies is_code_line(#[trigger] out[i]) by {
        if i < n.len() - 1 {
            assert(out[i] == strip_cr(n[i]));
            assert(kept_anywhere(n[i]));
            lemma_kept_anywhere_strip_cr(n[i]);
        } else {
            assert(out[i] == n[n.len() - 1]);
            assert(kept_anywhere(n[n.len() - 1]));
        }
    }
}

/// Law: trimming twice is trimming once, as long as no kept line but the
/// last ends with `\r` (such a line loses that `\r` when trimmed again).
pub proof fn law_trim_idempotent(src: Seq<char>)
    requires
        forall|i: int|
            0 <= i < kept_lines(src).len() - 1 ==> strip_cr(#[trigger] kept_lines(src)[i])
                == kept_lines(src)[i],
    ensures
        trimmed_text(trimmed_text(src)) == trimmed_text(src),
{
    reveal_strlit("\n");
    let nl = "\n"@;
    let ls = lines(src);
    let ks = trim_pass(ls).0;
    let n = kept_lines(src);
    let t = trimmed_text(src);
    lemma_lines_newline_free(src);
    lemma_trim_pass_newline_free(ls);
    lemma_trim_pass_kept_anywhere(ls);
    lemma_lines_of_join(ks);
    lemma_lines_of_joined_kept_anywhere(ks);
    lemma_non_blank_kept_anywhere(lines(join(ks, nl)));
    assert(t == join(n, nl));
    if n.len() == 0 {
        assert(t == Seq::<char>::empty());
        assert(lines(t) == Seq::<Seq<char>>::empty());
        assert(trim_pass(lines(t)).0 == Seq::<Seq<char>>::empty());
        assert(join(Seq::<Seq<char>>::empty(), nl) == Seq::<char>::empty());
        assert(non_blank(Seq::<Seq<char>>::empty()) == Seq::<Seq<char>>::empty());
    } else {
        assert forall|i: int| 0 <= i < n.len() implies newline_free(#[trigger] n[i]) by {
            assert(kept_anywhere(n[i]));
        }
        lemma_lines_of_join(n);
        let last = n[n.len() - 1];
        assert(kept_anywhere(last));
        assert(trim(last).len() > 0);
        assert(last.len() > 0);
        assert(n.drop_last().map_values(|k: Seq<char>| strip_cr(k)) =~= n.drop_last());
        assert(lines(t) =~= n);
        assert forall|i: int| 0 <= i < n.len() implies is_code_line(#[trigger] n[i]) by {
            assert(kept_anywhere(n[i]));
        }
        lemma_trim_pass_all_code(n);
        assert forall|i: int| 0 <= i < n.len() implies !is_blank(#[trigger] n[i]) by {
            assert(kept_anywhere(n[i]));
            lemma_trim_empty_iff_blank(n[i]);
        }
        lemma_non_blank_all(n);
    }
}

/// The opening lines of a context pack.
pub open spec fn context_header(task: Seq<char>, n: nat) -> Seq<char> {
    "// Context Compiler — task: "@ + task + "\n"@ + "// Files: "@ + decimal(n)
        + " · Total tokens: (trimmed)\n"@ + "// ─────────────────────────────────────────\n\n"@
}

/// What a file contributes to the pack under its header: its trimmed text
/// and trimmed token count, or a not-found note.
pub open spec fn file_body(path: Seq<char>, source: Option<String>) -> Seq<char> {
    match source {
        Some(src) => trimmed_text(src@) + "\n// — trimmed to "@ + decimal(
            tokens_for(utf8_len(trimmed_text(src@))),
        ) + " tokens —"@,
        None => "// File not found: "@ + path + "\n"@,
    }
}

/// A file's block in the pack: its header (path, token count and the score
/// as shown, `label`), then its body.
pub open spec fn file_block(f: ScoredFile, label: Seq<char>, source: Option<String>) -> Seq<char> {
    "// ═══ "@ + f.path@ + " — "@ + decimal(f.token_count as nat) + " tok (score: "@ + label
        + ") ═══\n"@ + file_body(f.path@, source) + "\n\n"@
}

pub open spec fn file_blocks(
    files: Seq<ScoredFile>,
    labels: Seq<Seq<char>>,
    sources: Seq<Option<String>>,
) -> Seq<char>
    decreases files.len(),
{
    if files.len() == 0 {
        seq![]
    } else {
        file_blocks(files.drop_last(), labels.drop_last(), sources.drop_last()) + file_block(
            files.last(),
            labels.last(),
            sources.last(),
        )
    }
}

/// The whole context pack.
pub open spec fn context_text(
    files: Seq<ScoredFile>,
    task: Seq<char>,
    labels: Seq<Seq<char>>,
    sources: Seq<Option<String>>,
) -> Seq<char> {
    context_header(task, files.len()) + file_blocks(files, labels, sources)
}

fn token_count(byte_len: usize) -> (r: usize)
    ensures
        r == tokens_for(byte_len as nat),
{
    byte_len / 4 + if byte_len % 4 != 0 {
        1
    } else {
        0
    }
}

fn line_comment(t: &[char]) -> (r: bool)
    ensures
        r == is_line_comment(t@),
{
    (has_prefix(t, &chars_of("//")) || has_prefix(t, &chars_of("# ")) || has_prefix(
        t,
        &chars_of("#!"),
    ) || has_prefix(t, &chars_of("-- "))) && !(has_prefix(t, &chars_of("///")) || has_prefix(
        t,
        &chars_of("/**"),
    ))
}

fn logging_line(t: &[char]) -> (r: bool)
    ensures
        r == is_logging(t@),
{
    let l = lowercase(t);
    has_substring(&l, &chars_of("console.log")) || has_substring(&l, &chars_of("logger.debug"))
        || has_substring(&l, &chars_of("print(")) || has_substring(&l, &chars_of("println!("))
        || has_substring(&l, &chars_of("dbg!(")) || has_substring(&l, &chars_of("log::debug"))
        || has_substring(&l, &chars_of("debug!("))
}

impl Trimmer {
    /// Trim a file's content, keeping only the important parts.
    /// Returns (trimmed_content, original_tokens, trimmed_tokens); the
    /// trimmed count never exceeds the original one.
    pub fn trim(source: &str, language: &str) -> (r: Result<
        (String, usize, usize),
        core::convert::Infallible,
    >)
        ensures
            r matches Ok((t, orig, after)) && t@ == trimmed_text(source@) && orig == tokens_for(
                utf8_len(source@),
            ) && after == tokens_for(utf8_len(t@)) && after <= orig,
    {
        proof {
            law_trim_never_adds_tokens(source@);
        }
        let original_tokens = token_count(crate::text::byte_len(source));
        let trimmed = Self::trim_content(source, language);
        let trimmed_tokens = token_count(crate::text::byte_len(trimmed.as_str()));
        Ok((trimmed, original_tokens, trimmed_tokens))
    }

    /// Drops block comments, single-line comments (doc comments stay),
    /// logging lines and blank lines. Trimming the result again changes
    /// nothing unless a kept line other than the last ends with `\r`.
    pub fn trim_content(source: &str, _language: &str) -> (r: String)
        ensures
            r@ == trimmed_text(source@),
            (forall|i: int|
                0 <= i < kept_lines(source@).len() - 1 ==> strip_cr(
                    #[trigger] kept_lines(source@)[i],
                ) == kept_lines(source@)[i]) ==> trimmed_text(r@) == r@,
    {
        proof {
            if forall|i: int|
                0 <= i < kept_lines(source@).len() - 1 ==> strip_cr(
                    #[trigger] kept_lines(source@)[i],
                ) == kept_lines(source@)[i] {
                law_trim_idempotent(source@);
            }
        }
        let v = chars_of(source);
        let ls = split_lines(&v);
        let ghost lv = ls.deep_view();
        let mut out: Vec<Vec<char>> = Vec::new();
        let mut in_block_comment = false;
        let mut i: usize = 0;
        while i < ls.len()
            invariant
                i <= ls@.len(),
                lv == ls.deep_view(),
                (out.deep_view(), in_block_comment) == trim_pass(lv.take(i as int)),
            decreases ls.len() - i,
        {
            let line = &ls[i];
            let t = trimmed(line);
            proof {
                assert(lv.take(i + 1).drop_last() =~= lv.take(i as int));
                assert(lv.take(i + 1).last() == ls@[i as int]@);
            }
            if has_prefix(&t, &chars_of("/*")) && !has_suffix(&t, &chars_of("*/")) {
                in_block_comment = true;
            } else if in_block_comment {
                if has_suffix(&t, &chars_of("*/")) || has_substring(&t, &chars_of("*/")) {
                    proof {
                        if ends_with(t@, "*/"@) {
                            crate::text::lemma_ends_with_contains(t@, "*/"@);
                        }
                    }
                    in_block_comment = false;
                }
            } else if line_comment(&t) {
            } else if logging_line(&t) {
            } else if t.len() == 0 {
                let e: Vec<char> = Vec::new();
                let ghost before = out;
                let ghost ev = e;
                out.push(e);
                proof {
                    lemma_push_deep_view(before, out, ev);
                    assert(ev@ =~= Seq::<char>::empty());
                }
            } else {
                let kept = crate::text::slice_copy_whole(line);
                let ghost before = out;
                out.push(kept);
                proof {
                    lemma_push_deep_view(before, out, kept);
                }
            }
            i += 1;
        }
        proof {
            assert(lv.take(ls@.len() as int) =~= lv);
        }
        let nl = chars_of("\n");
        let joined = join_with(&out, &nl);
        let relines = split_lines(&joined);
        let ghost rv = relines.deep_view();
        let mut kept: Vec<Vec<char>> = Vec::new();
        let mut j: usize = 0;
        while j < relines.len()
            invariant
                j <= relines@.len(),
                rv == relines.deep_view(),
                kept.deep_view() == non_blank(rv.take(j as int)),
            decreases relines.len() - j,
        {
            proof {
                assert(rv.take(j + 1).drop_last() =~= rv.take(j as int));
                assert(rv.take(j + 1).last() == relines@[j as int]@);
            }
            if !blank(&relines[j]) {
                let l = crate::text::slice_copy_whole(&relines[j]);
                let ghost before = kept;
                kept.push(l);
                proof {
                    lemma_push_deep_view(before, kept, l);
                }
            }
            j += 1;
        }
        proof {
            assert(rv.take(relines@.len() as int) =~= rv);
        }
        string_of(&join_with(&kept, &nl))
    }

    /// Format a compiled context pack for the selected files. `sources[i]`
    /// is the content of `files[i]`, or `None` when it could not be read;
    /// `score_labels[i]` is the score of `files[i]` as the pack shows it
    /// (two decimals).
    pub fn format_context(
        files: &[ScoredFile],
        task: &str,
        score_labels: &[String],
        sources: &[Option<String>],
    ) -> (r: String)
        requires
            score_labels@.len() == files@.len(),
            sources@.len() == files@.len(),
        ensures
            r@ == context_text(files@, task@, score_labels.deep_view(), sources@),
    {
        let ghost lv = score_labels.deep_view();
        let mut out: Vec<char> = Vec::new();
        append_chars(&mut out, &chars_of("// Context Compiler — task: "));
        append_chars(&mut out, &chars_of(task));
        append_chars(&mut out, &chars_of("\n"));
        append_chars(&mut out, &chars_of("// Files: "));
        append_chars(&mut out, &decimal_chars(files.len() as u64));
        append_chars(&mut out, &chars_of(" · Total tokens: (trimmed)\n"));
        append_chars(&mut out, &chars_of("// ─────────────────────────────────────────\n\n"));
        proof {
            assert(out@ =~= context_header(task@, files@.len()));
            assert(files@.take(0) =~= Seq::<ScoredFile>::empty());
        }
        let ghost header = out@;
        let mut i: usize = 0;
        while i < files.len()
            invariant
                i <= files@.len() == sources@.len() == score_labels@.len(),
                lv == score_labels.deep_view(),
                out@ == header + file_blocks(
                    files@.take(i as int),
                    lv.take(i as int),
                    sources@.take(i as int),
                ),
            decreases files.len() - i,
        {
            let f = &files[i];
            let ghost before = out@;
            append_chars(&mut out, &chars_of("// ═══ "));
            append_chars(&mut out, &chars_of(f.path.as_str()));
            append_chars(&mut out, &chars_of(" — "));
            append_chars(&mut out, &decimal_chars(f.token_count as u64));
            append_chars(&mut out, &chars_of(" tok (score: "));
            append_chars(&mut out, &chars_of(score_labels[i].as_str()));
            append_chars(&mut out, &chars_of(") ═══\n"));
            let ghost mid = out@;
            match &sources[i] {
                Some(source) => {
                    let (trimmed, _orig, trimmed_tok) = match Self::trim(source.as_str(), f.language.as_str()) {
                        Ok(t) => t,
                    };
                    append_chars(&mut out, &chars_of(trimmed.as_str()));
                    append_chars(&mut out, &chars_of("\n// — trimmed to "));
                    append_chars(&mut out, &decimal_chars(trimmed_tok as u64));
                    append_chars(&mut out, &chars_of(" tokens —"));
                },
                None => {
                    append_chars(&mut out, &chars_of("// File not found: "));
                    append_chars(&mut out, &chars_of(f.path.as_str()));
                    append_chars(&mut out, &chars_of("\n"));
                },
            }
            proof {
                assert(out@ =~= mid + file_body(f.path@, sources@[i as int]));
            }
            append_chars(&mut out, &chars_of("\n\n"));
            proof {
                assert(lv[i as int] == score_labels@[i as int]@);
                assert(out@ =~= before + file_block(files@[i as int], lv[i as int], sources@[i as int]));
                assert(files@.take(i + 1).drop_last() =~= files@.take(i as int));
                assert(lv.take(i + 1).drop_last() =~= lv.take(i as int));
                assert(lv.take(i + 1).last() == lv[i as int]);
                assert(sources@.take(i + 1).drop_last() =~= sources@.take(i as int));
                assert(files@.take(i + 1).last() == files@[i as int]);
                assert(sources@.take(i + 1).last() == sources@[i as int]);
            }
            i += 1;
        }
        proof {
            assert(files@.take(files@.len() as int) =~= files@);
            assert(lv.take(lv.len() as int) =~= lv);
            assert(sources@.take(sources@.len() as int) =~= sources@);
        }
        string_of(&out)
    }
}


/// Law: the token count of a text is its byte length divided by four,
/// rounded up: four tokens per count cover the bytes, with fewer than four
/// to spare.
pub proof fn law_tokens_for(byte_len: nat)
    ensures
        byte_len <= 4 * tokens_for(byte_len) < byte_len + 4,
{
}

} // verus!
