//! Indexing decisions: which files are indexed and how, their summaries,
//! and how import statements resolve to indexed paths.

use vstd::prelude::*;

use crate::store::{join_path, path_join, ImportEdge};
use crate::text::{
    append_chars, blank, chars_of, ends_with, has_prefix, has_suffix, index_of_char,
    is_blank, join, join_with, lemma_index_of_char, lemma_index_of_char_bounds,
    lemma_push_deep_view, lines, slice_copy, slice_copy_whole, split_lines, starts_with, string_of,
    trim, trimmed,
};
use crate::tree::{detected_language, opt_str_view, Parser};

verus! {

broadcast use vstd::string::group_string_axioms;

/// Builds the index from a codebase directory.
pub struct IndexBuilder;

/// The `k`-th piece of `s` split at `c` (what `s.split(c).nth(k)` yields).
pub open spec fn split_field(s: Seq<char>, c: char, k: nat) -> Option<Seq<char>>
    decreases k,
{
    let i = index_of_char(s, c);
    if k == 0 {
        proof {
            lemma_index_of_char_bounds(s, c);
        }
        Some(s.take(i))
    } else if i < s.len() {
        proof {
            lemma_index_of_char_bounds(s, c);
        }
        split_field(s.skip(i + 1), c, (k - 1) as nat)
    } else {
        None
    }
}

/// `s` with every non-overlapping occurrence of `from` (scanning left to
/// right) replaced by `to` (`str::replace`, for a non-empty `from`).
pub open spec fn replace_all(s: Seq<char>, from: Seq<char>, to: Seq<char>) -> Seq<char>
    decreases s.len(),
{
    if from.len() == 0 || s.len() < from.len() {
        s
    } else if s.take(from.len() as int) == from {
        to + replace_all(s.skip(from.len() as int), from, to)
    } else {
        seq![s[0]] + replace_all(s.drop_first(), from, to)
    }
}

/// `s` with `p` removed from its front as often as it occurs there
/// (`str::trim_start_matches` with a string pattern).
pub open spec fn strip_prefixes(s: Seq<char>, p: Seq<char>) -> Seq<char>
    decreases s.len(),
{
    if p.len() > 0 && starts_with(s, p) {
        strip_prefixes(s.skip(p.len() as int), p)
    } else {
        s
    }
}

pub open spec fn quoted_target(stmt: Seq<char>) -> Option<Seq<char>> {
    match split_field(stmt, '\'', 1) {
        Some(t) => Some(t),
        None => split_field(stmt, '"', 1),
    }
}

/// The module path an import statement names, before resolution.
pub open spec fn import_target(stmt: Seq<char>) -> Option<Seq<char>> {
    if starts_with(stmt, "import "@) {
        quoted_target(stmt)
    } else if starts_with(stmt, "use "@) {
        let first = split_field(stmt, ';', 0)->0;
        let p = trim(strip_prefixes(first, "use "@));
        Some(
            replace_all(
                replace_all(replace_all(replace_all(p, "::"@, "/"@), "crate/"@, seq![]), "self/"@, seq![]),
                "super/"@,
                "../"@,
            ),
        )
    } else if starts_with(stmt, "from "@) {
        match split_field(stmt, ' ', 1) {
            Some(m) => Some(replace_all(m, "."@, "/"@)),
            None => None,
        }
    } else if starts_with(stmt, "require("@) {
        quoted_target(stmt)
    } else {
        None
    }
}

/// Name for what `Path::parent` returns for a path given as text: the path
/// without its final component, or nothing for a root or the empty path.
pub uninterp spec fn path_parent(p: Seq<char>) -> Option<Seq<char>>;

/// Calls `Path::parent`; its result is named `path_parent`.
#[verifier::external_body]
fn std_path_parent(p: &str) -> (r: Option<String>)
    ensures
        crate::config::opt_view(r) == path_parent(p@),
{
    match std::path::Path::new(p).parent() {
        Some(q) => Some(q.to_string_lossy().into_owned()),
        None => None,
    }
}

/// The indexed path an import statement of the file at `relative_path`
/// refers to: only relative (`.`) or absolute (`/`) targets resolve, against
/// the file's directory.
pub open spec fn resolved_import(relative_path: Seq<char>, stmt: Seq<char>) -> Option<Seq<char>> {
    match import_target(stmt) {
        None => None,
        Some(ip) => if starts_with(ip, "."@) || starts_with(ip, "/"@) || starts_with(ip, ".."@) {
            match path_parent(relative_path) {
                Some(base) => Some(path_join(base, ip)),
                None => None,
            }
        } else {
            None
        },
    }
}

/// `s.split(c).nth(k)`, on characters.
pub fn split_field_exec(s: &[char], c: char, k: usize) -> (r: Option<Vec<char>>)
    ensures
        match r {
            Some(x) => split_field(s@, c, k as nat) == Some(x@),
            None => split_field(s@, c, k as nat) is None,
        },
{
    let mut pos: usize = 0;
    let mut left: usize = k;
    proof {
        assert(s@.skip(0) =~= s@);
    }
    loop
        invariant
            pos <= s@.len(),
            split_field(s@, c, k as nat) == split_field(s@.skip(pos as int), c, left as nat),
        decreases left,
    {
        let ghost rest = s@.skip(pos as int);
        let mut j = pos;
        while j < s.len() && s[j] != c
            invariant
                pos <= j <= s@.len(),
                forall|t: int| pos <= t < j ==> s@[t] != c,
            decreases s.len() - j,
        {
            j += 1;
        }
        proof {
            lemma_index_of_char(rest, c, j - pos);
        }
        if left == 0 {
            let piece = slice_copy(s, pos, j);
            proof {
                assert(rest.take(j - pos) =~= s@.subrange(pos as int, j as int));
            }
            return Some(piece);
        }
        if j == s.len() {
            return None;
        }
        proof {
            assert(rest.skip(j - pos + 1) =~= s@.skip(j + 1));
        }
        pos = j + 1;
        left = left - 1;
    }
}

/// `s.replace(from, to)`, on characters (for a non-empty `from`).
pub fn replace_all_exec(s: &[char], from: &[char], to: &[char]) -> (r: Vec<char>)
    ensures
        r@ == replace_all(s@, from@, to@),
{
    let mut out: Vec<char> = Vec::new();
    let mut pos: usize = 0;
    proof {
        assert(s@.skip(0) =~= s@);
    }
    while pos < s.len()
        invariant
            pos <= s@.len(),
            replace_all(s@, from@, to@) == out@ + replace_all(s@.skip(pos as int), from@, to@),
        decreases s.len() - pos,
    {
        let ghost rest = s@.skip(pos as int);
        if from.len() == 0 || s.len() - pos < from.len() {
            append_chars(&mut out, &slice_copy(s, pos, s.len()));
            proof {
                assert(rest =~= s@.subrange(pos as int, s@.len() as int));
                assert(s@.skip(s@.len() as int) =~= Seq::<char>::empty());
                assert(replace_all(s@.skip(s@.len() as int), from@, to@) =~= Seq::<char>::empty());
            }
            pos = s.len();
        } else if crate::text::matches_at(s, from, pos) {
            proof {
                assert(rest.take(from@.len() as int) =~= s@.subrange(pos as int, pos + from@.len()));
                assert(rest.skip(from@.len() as int) =~= s@.skip(pos + from@.len()));
            }
            append_chars(&mut out, to);
            pos = pos + from.len();
        } else {
            proof {
                assert(rest.take(from@.len() as int) =~= s@.subrange(pos as int, pos + from@.len()));
                assert(rest.drop_first() =~= s@.skip(pos + 1));
                assert(rest[0] == s@[pos as int]);
            }
            out.push(s[pos]);
            proof {
                assert(out@ + replace_all(s@.skip(pos + 1), from@, to@) =~= out@.drop_last() + (seq![
                    s@[pos as int],
                ] + replace_all(s@.skip(pos + 1), from@, to@)));
            }
            pos = pos + 1;
        }
    }
    proof {
        assert(s@.skip(s@.len() as int) =~= Seq::<char>::empty());
        assert(out@ + Seq::<char>::empty() =~= out@);
    }
    out
}

/// `s.trim_start_matches(p)` for a string pattern `p`.
pub fn strip_prefixes_exec(s: &[char], p: &[char]) -> (r: Vec<char>)
    ensures
        r@ == strip_prefixes(s@, p@),
{
    let mut pos: usize = 0;
    proof {
        assert(s@.skip(0) =~= s@);
    }
    while p.len() > 0 && crate::text::matches_at(s, p, pos)
        invariant
            pos <= s@.len(),
            strip_prefixes(s@, p@) == strip_prefixes(s@.skip(pos as int), p@),
        decreases s.len() - pos,
    {
        proof {
            let rest = s@.skip(pos as int);
            assert(rest.take(p@.len() as int) =~= s@.subrange(pos as int, pos + p@.len()));
            assert(rest.skip(p@.len() as int) =~= s@.skip(pos + p@.len()));
        }
        pos = pos + p.len();
    }
    proof {
        let rest = s@.skip(pos as int);
        if p@.len() > 0 && p@.len() <= rest.len() {
            assert(rest.take(p@.len() as int) =~= s@.subrange(pos as int, pos + p@.len()));
        }
    }
    let r = slice_copy(s, pos, s.len());
    assert(r@ =~= s@.skip(pos as int));
    r
}

fn quoted_target_exec(stmt: &[char]) -> (r: Option<Vec<char>>)
    ensures
        match r {
            Some(x) => quoted_target(stmt@) == Some(x@),
            None => quoted_target(stmt@) is None,
        },
{
    match split_field_exec(stmt, '\'', 1) {
        Some(t) => Some(t),
        None => split_field_exec(stmt, '"', 1),
    }
}

fn import_target_exec(stmt: &[char]) -> (r: Option<Vec<char>>)
    ensures
        match r {
            Some(x) => import_target(stmt@) == Some(x@),
            None => import_target(stmt@) is None,
        },
{
    if has_prefix(stmt, &chars_of("import ")) {
        quoted_target_exec(stmt)
    } else if has_prefix(stmt, &chars_of("use ")) {
        let first = match split_field_exec(stmt, ';', 0) {
            Some(f) => f,
            None => {
                proof {
                    lemma_index_of_char_bounds(stmt@, ';');
                }
                return None;
            },
        };
        let p = trimmed(&strip_prefixes_exec(&first, &chars_of("use ")));
        let a = replace_all_exec(&p, &chars_of("::"), &chars_of("/"));
        let nothing: Vec<char> = Vec::new();
        assert(nothing@ =~= Seq::<char>::empty());
        let b = replace_all_exec(&a, &chars_of("crate/"), &nothing);
        let c = replace_all_exec(&b, &chars_of("self/"), &nothing);
        let d = replace_all_exec(&c, &chars_of("super/"), &chars_of("../"));
        proof {
            lemma_index_of_char_bounds(stmt@, ';');
        }
        Some(d)
    } else if has_prefix(stmt, &chars_of("from ")) {
        match split_field_exec(stmt, ' ', 1) {
            Some(m) => Some(replace_all_exec(&m, &chars_of("."), &chars_of("/"))),
            None => None,
        }
    } else if has_prefix(stmt, &chars_of("require(")) {
        quoted_target_exec(stmt)
    } else {
        None
    }
}

/// File types indexed even though no language is detected for them.
pub open spec fn plain_text_file(path: Seq<char>) -> bool {
    ||| ends_with(path, ".md"@)
    ||| ends_with(path, ".txt"@)
    ||| ends_with(path, ".yaml"@)
    ||| ends_with(path, ".yml"@)
    ||| ends_with(path, ".json"@)
    ||| ends_with(path, ".toml"@)
}

/// The language a file is indexed under, or nothing when it is skipped.
pub open spec fn index_language(path: Seq<char>) -> Option<Seq<char>> {
    match detected_language(path) {
        Some(l) => Some(l),
        None => if plain_text_file(path) {
            Some("unknown"@)
        } else {
            None
        },
    }
}

/// The first `n` elements of `s` that are not blank, in order.
pub open spec fn non_blank_lines(ls: Seq<Seq<char>>) -> Seq<Seq<char>>
    decreases ls.len(),
{
    if ls.len() == 0 {
        seq![]
    } else if is_blank(ls.last()) {
        non_blank_lines(ls.drop_last())
    } else {
        non_blank_lines(ls.drop_last()).push(ls.last())
    }
}

/// The summary stored for a file: the parsed summary, or when that is empty
/// the non-blank lines among the first ten; at most 500 characters.
pub open spec fn stored_summary(source: Seq<char>, parsed: Seq<char>) -> Seq<char> {
    let s = if parsed.len() == 0 {
        join(non_blank_lines(crate::tree::first_n(lines(source), 10)), "\n"@)
    } else {
        parsed
    };
    crate::tree::first_n(s, 500)
}

/// The resolved targets of the import statements `stmts`, in order.
pub open spec fn resolved_imports(relative_path: Seq<char>, stmts: Seq<Seq<char>>) -> Seq<
    Seq<char>,
>
    decreases stmts.len(),
{
    if stmts.len() == 0 {
        seq![]
    } else {
        let prev = resolved_imports(relative_path, stmts.drop_last());
        match resolved_import(relative_path, stmts.last()) {
            Some(t) => prev.push(t),
            None => prev,
        }
    }
}

impl IndexBuilder {
    /// Resolve an import statement to a file path.
    pub fn resolve_import(relative_path: &str, import_stmt: &str) -> (r: Option<String>)
        ensures
            crate::config::opt_view(r) == resolved_import(relative_path@, import_stmt@),
    {
        let stmt = chars_of(import_stmt);
        let import_path = match import_target_exec(&stmt) {
            Some(p) => p,
            None => return None,
        };
        if has_prefix(&import_path, &chars_of(".")) || has_prefix(&import_path, &chars_of("/"))
            || has_prefix(&import_path, &chars_of("..")) {
            let base_dir = match std_path_parent(relative_path) {
                Some(b) => b,
                None => return None,
            };
            let resolved = join_path(&chars_of(base_dir.as_str()), &import_path);
            Some(string_of(&resolved))
        } else {
            None
        }
    }

    /// The language a file is indexed under, or `None` when it is skipped.
    pub fn indexable_language(path: &str) -> (r: Option<&'static str>)
        ensures
            opt_str_view(r) == index_language(path@),
    {
        match Parser::detect_language(path) {
            Some(l) => Some(l),
            None => {
                let p = chars_of(path);
                if has_suffix(&p, &chars_of(".md")) || has_suffix(&p, &chars_of(".txt"))
                    || has_suffix(&p, &chars_of(".yaml")) || has_suffix(&p, &chars_of(".yml"))
                    || has_suffix(&p, &chars_of(".json")) || has_suffix(&p, &chars_of(".toml")) {
                    Some("unknown")
                } else {
                    None
                }
            },
        }
    }

    /// The summary stored for a file.
    pub fn stored_summary(source: &str, parsed_summary: &str) -> (r: String)
        ensures
            r@ == stored_summary(source@, parsed_summary@),
    {
        let s: Vec<char> = if parsed_summary.is_empty() {
            let ls = split_lines(&chars_of(source));
            let ghost lv = ls.deep_view();
            let lim = if ls.len() < 10 {
                ls.len()
            } else {
                10
            };
            let mut kept: Vec<Vec<char>> = Vec::new();
            let mut i: usize = 0;
            while i < lim
                invariant
                    lim <= ls@.len(),
                    lim == crate::tree::first_n(lv, 10).len(),
                    i <= lim,
                    lv == ls.deep_view(),
                    kept.deep_view() == non_blank_lines(crate::tree::first_n(lv, 10).take(i as int)),
                decreases lim - i,
            {
                proof {
                    let f = crate::tree::first_n(lv, 10);
                    assert(f.take(i + 1).drop_last() =~= f.take(i as int));
                    assert(f.take(i + 1).last() == ls@[i as int]@);
                }
                if !blank(&ls[i]) {
                    let l = slice_copy_whole(&ls[i]);
                    let ghost before = kept;
                    kept.push(l);
                    proof {
                        lemma_push_deep_view(before, kept, l);
                    }
                }
                i += 1;
            }
            proof {
                assert(crate::tree::first_n(lv, 10).take(lim as int) =~= crate::tree::first_n(lv, 10));
            }
            join_with(&kept, &chars_of("\n"))
        } else {
            chars_of(parsed_summary)
        };
        let n = if s.len() < 500 {
            s.len()
        } else {
            500
        };
        let cut = slice_copy(&s, 0, n);
        assert(cut@ =~= crate::tree::first_n(s@, 500));
        string_of(&cut)
    }

    /// The import edges of a file: one per import statement that resolves,
    /// in statement order.
    pub fn import_edges(relative_path: &str, imports: &Vec<String>) -> (r: Vec<ImportEdge>)
        ensures
            forall|i: int| 0 <= i < r@.len() ==> (#[trigger] r@[i]).from_path@ == relative_path@,
            r@.map_values(|e: ImportEdge| e.to_path@) == resolved_imports(
                relative_path@,
                imports.deep_view(),
            ),
    {
        let ghost iv = imports.deep_view();
        let mut out: Vec<ImportEdge> = Vec::new();
        let mut i: usize = 0;
        while i < imports.len()
            invariant
                i <= imports@.len(),
                iv == imports.deep_view(),
                forall|k: int| 0 <= k < out@.len() ==> (#[trigger] out@[k]).from_path@ == relative_path@,
                out@.map_values(|e: ImportEdge| e.to_path@) == resolved_imports(
                    relative_path@,
                    iv.take(i as int),
                ),
            decreases imports.len() - i,
        {
            proof {
                assert(iv.take(i + 1).drop_last() =~= iv.take(i as int));
                assert(iv.take(i + 1).last() == imports@[i as int]@);
            }
            match Self::resolve_import(relative_path, imports[i].as_str()) {
                Some(to_path) => {
                    let from_path = string_of(&chars_of(relative_path));
                    let ghost before = out@;
                    out.push(ImportEdge { from_path, to_path });
                    proof {
                        assert(out@.map_values(|e: ImportEdge| e.to_path@) =~= before.map_values(
                            |e: ImportEdge| e.to_path@,
                        ).push(to_path@));
                    }
                },
                None => {},
            }
            i += 1;
        }
        proof {
            assert(iv.take(imports@.len() as int) =~= iv);
        }
        out
    }
}


/// Law: the language a file is indexed under is its detected language;
/// a file with none is still indexed, as "unknown", when its path ends with
/// .md, .txt, .yaml, .yml, .json or .toml, and skipped otherwise.
pub proof fn law_index_language(path: Seq<char>)
    ensures
        detected_language(path) is Some ==> index_language(path) == detected_language(path),
        detected_language(path) is None ==> (index_language(path) == if ends_with(path, ".md"@)
            || ends_with(path, ".txt"@) || ends_with(path, ".yaml"@) || ends_with(path, ".yml"@)
            || ends_with(path, ".json"@) || ends_with(path, ".toml"@) {
            Some("unknown"@)
        } else {
            None
        }),
{
}

} // verus!
