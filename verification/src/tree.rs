//! Lightweight, line-based code inspection: language detection, summaries,
//! import statements, token estimates, content hashes and ignore rules.

use std::hash::Hasher;
use vstd::prelude::*;
use vstd::string::StringSliceAdditionalSpecFns;

use crate::text::{
    after_last, after_last_char, append_chars, blank, chars_are, chars_of, contains, digit_char, occurs_at,
    ends_with, has_prefix, has_substring, has_suffix, join, join_with, lemma_push_deep_view,
    lemma_push_strings, lemma_utf8_len_concat, lines, lowercase, split_lines,
    starts_with, string_of, trim, trimmed, unicode_lowercase, utf8_len, utf8_width,
    char_utf8_width,
};

verus! {

broadcast use vstd::string::group_string_axioms;

/// Language-aware code parser.
pub struct Parser;

/// What `Parser::parse` extracts from one file.
pub struct ParsedFile {
    pub summary: String,
    pub imports: Vec<String>,
    pub token_count: usize,
    pub tree_hash: String,
}

/// The language a (lowercased) file extension belongs to.
pub open spec fn language_of_ext(e: Seq<char>) -> Option<Seq<char>> {
    if e == "ts"@ || e == "tsx"@ || e == "mts"@ {
        Some("typescript"@)
    } else if e == "js"@ || e == "jsx"@ || e == "mjs"@ {
        Some("javascript"@)
    } else if e == "py"@ {
        Some("python"@)
    } else if e == "rs"@ {
        Some("rust"@)
    } else if e == "go"@ {
        Some("go"@)
    } else if e == "java"@ {
        Some("java"@)
    } else if e == "rb"@ {
        Some("ruby"@)
    } else if e == "c"@ || e == "h"@ {
        Some("c"@)
    } else if e == "cpp"@ || e == "hpp"@ || e == "cc"@ || e == "cxx"@ {
        Some("cpp"@)
    } else if e == "zig"@ {
        Some("zig"@)
    } else if e == "swift"@ {
        Some("swift"@)
    } else if e == "kt"@ || e == "kts"@ {
        Some("kotlin"@)
    } else if e == "scala"@ {
        Some("scala"@)
    } else if e == "ex"@ || e == "exs"@ {
        Some("elixir"@)
    } else if e == "hs"@ {
        Some("haskell"@)
    } else if e == "lua"@ {
        Some("lua"@)
    } else {
        None
    }
}

/// The language of a path: the text after its last `.`, lowercased.
pub open spec fn detected_language(path: Seq<char>) -> Option<Seq<char>> {
    language_of_ext(unicode_lowercase(after_last(path, '.')))
}

pub open spec fn opt_str_view(o: Option<&str>) -> Option<Seq<char>> {
    match o {
        Some(s) => Some(s@),
        None => None,
    }
}

/// A directory name that makes a path ignored when it occurs as `/name/`
/// or `/name`.
pub open spec fn dir_hit(p: Seq<char>, d: Seq<char>) -> bool {
    contains(p, seq!['/'] + d + seq!['/']) || contains(p, seq!['/'] + d)
}

pub open spec fn ignored_dir(p: Seq<char>) -> bool {
    ||| dir_hit(p, "node_modules"@)
    ||| dir_hit(p, ".git"@)
    ||| dir_hit(p, "target"@)
    ||| dir_hit(p, "dist"@)
    ||| dir_hit(p, "build"@)
    ||| dir_hit(p, ".next"@)
    ||| dir_hit(p, ".nuxt"@)
    ||| dir_hit(p, "vendor"@)
    ||| dir_hit(p, ".tox"@)
    ||| dir_hit(p, "__pycache__"@)
    ||| dir_hit(p, ".venv"@)
    ||| dir_hit(p, "venv"@)
    ||| dir_hit(p, ".ctx"@)
    ||| dir_hit(p, "coverage"@)
    ||| dir_hit(p, ".terraform"@)
}

pub open spec fn ignored_ext(p: Seq<char>) -> bool {
    ||| ends_with(p, ".min.js"@)
    ||| ends_with(p, ".min.css"@)
    ||| ends_with(p, ".map"@)
    ||| ends_with(p, ".svg"@)
    ||| ends_with(p, ".png"@)
    ||| ends_with(p, ".jpg"@)
    ||| ends_with(p, ".jpeg"@)
    ||| ends_with(p, ".gif"@)
    ||| ends_with(p, ".ico"@)
    ||| ends_with(p, ".woff"@)
    ||| ends_with(p, ".woff2"@)
    ||| ends_with(p, ".ttf"@)
    ||| ends_with(p, ".eot"@)
    ||| ends_with(p, ".mp4"@)
    ||| ends_with(p, ".mp3"@)
    ||| ends_with(p, ".wasm"@)
    ||| ends_with(p, ".lock"@)
}

pub open spec fn ignored_path(p: Seq<char>) -> bool {
    ignored_dir(p) || ignored_ext(p)
}

/// A trimmed line that counts as an import statement for `lang`.
pub open spec fn is_import_line(t: Seq<char>, lang: Seq<char>) -> bool {
    if lang == "typescript"@ || lang == "javascript"@ {
        starts_with(t, "import "@) || starts_with(t, "require("@)
    } else if lang == "python"@ {
        starts_with(t, "import "@) || starts_with(t, "from "@)
    } else if lang == "rust"@ {
        starts_with(t, "use "@) || starts_with(t, "extern "@)
    } else if lang == "go"@ {
        starts_with(t, "import"@) || starts_with(t, "require"@)
    } else if lang == "java"@ {
        starts_with(t, "import "@)
    } else if lang == "ruby"@ {
        starts_with(t, "require "@) || starts_with(t, "require_relative "@)
    } else {
        false
    }
}

/// The trimmed import lines among `ls`, in order.
pub open spec fn imports_of(ls: Seq<Seq<char>>, lang: Seq<char>) -> Seq<Seq<char>>
    decreases ls.len(),
{
    if ls.len() == 0 {
        seq![]
    } else {
        let prev = imports_of(ls.drop_last(), lang);
        let t = trim(ls.last());
        if is_import_line(t, lang) {
            prev.push(t)
        } else {
            prev
        }
    }
}

/// Characters stripped from the front of a comment line in a summary.
pub open spec fn is_comment_mark(c: char) -> bool {
    c == '/' || c == '#' || c == '-' || c == '*' || c == ' '
}

pub open spec fn trim_comment_marks(s: Seq<char>) -> Seq<char>
    decreases s.len(),
{
    if s.len() > 0 && is_comment_mark(s[0]) {
        trim_comment_marks(s.drop_first())
    } else {
        s
    }
}

/// What a trimmed head line contributes to the summary: a shebang as is, a
/// comment without its leading markers, anything else nothing.
pub open spec fn header_part(t: Seq<char>) -> Option<Seq<char>> {
    if starts_with(t, "#!/"@) {
        Some(t)
    } else if starts_with(t, "//"@) || starts_with(t, "#"@) || starts_with(t, "/*"@)
        || starts_with(t, "--"@) {
        Some(trim_comment_marks(t))
    } else {
        None
    }
}

pub open spec fn header_parts(ls: Seq<Seq<char>>) -> Seq<Seq<char>>
    decreases ls.len(),
{
    if ls.len() == 0 {
        seq![]
    } else {
        let prev = header_parts(ls.drop_last());
        match header_part(trim(ls.last())) {
            Some(p) => prev.push(p),
            None => prev,
        }
    }
}

/// A trimmed line that opens a declaration.
pub open spec fn is_decl(t: Seq<char>) -> bool {
    ||| starts_with(t, "pub "@)
    ||| starts_with(t, "fn "@)
    ||| starts_with(t, "def "@)
    ||| starts_with(t, "class "@)
    ||| starts_with(t, "function "@)
    ||| starts_with(t, "export "@)
    ||| starts_with(t, "impl "@)
    ||| starts_with(t, "struct "@)
    ||| starts_with(t, "enum "@)
    ||| starts_with(t, "interface "@)
    ||| starts_with(t, "type "@)
    ||| starts_with(t, "const "@)
    ||| starts_with(t, "func "@)
    ||| starts_with(t, "async "@)
}

/// All trimmed declaration lines among `ls`, in order.
pub open spec fn decl_lines(ls: Seq<Seq<char>>) -> Seq<Seq<char>>
    decreases ls.len(),
{
    if ls.len() == 0 {
        seq![]
    } else {
        let prev = decl_lines(ls.drop_last());
        let t = trim(ls.last());
        if is_decl(t) {
            prev.push(t)
        } else {
            prev
        }
    }
}

pub open spec fn first_n<A>(s: Seq<A>, n: nat) -> Seq<A> {
    if s.len() <= n {
        s
    } else {
        s.take(n as int)
    }
}

/// The first eight declaration lines of a source.
pub open spec fn declarations(src: Seq<char>) -> Seq<Seq<char>> {
    first_n(decl_lines(lines(src)), 8)
}

/// The longest prefix of `s` whose UTF-8 encoding fits in `budget` bytes.
pub open spec fn prefix_within(s: Seq<char>, budget: nat) -> Seq<char>
    decreases s.len(),
{
    if s.len() == 0 || utf8_width(s[0]) > budget {
        seq![]
    } else {
        seq![s[0]] + prefix_within(s.drop_first(), (budget - utf8_width(s[0])) as nat)
    }
}

/// Cutting `s` at byte `n` lands on a character boundary (or `s` is no
/// longer than `n` bytes), so byte slicing `..min(len, n)` succeeds.
pub open spec fn cuts_cleanly(s: Seq<char>, n: nat) -> bool {
    utf8_len(s) <= n || utf8_len(prefix_within(s, n)) == n
}

/// The summary lines before they are joined.
pub open spec fn summary_parts(src: Seq<char>) -> Seq<Seq<char>> {
    let h = header_parts(first_n(lines(src), 5));
    let d = declarations(src);
    if d.len() == 0 {
        h
    } else {
        let h2 = if h.len() > 0 {
            h.push(seq![])
        } else {
            h
        };
        h2.push("Declarations:"@) + d.map_values(|x: Seq<char>| prefix_within(x, 120))
    }
}

/// The summary of a source: head comments, then up to eight declaration
/// lines (each cut to 120 bytes), one per line, trimmed.
pub open spec fn summary_of(src: Seq<char>) -> Seq<char> {
    trim(join(summary_parts(src), "\n"@))
}

/// The summary can be built without cutting a declaration inside a character.
pub open spec fn summary_cuts_cleanly(src: Seq<char>) -> bool {
    forall|i: int|
        0 <= i < declarations(src).len() ==> cuts_cleanly(#[trigger] declarations(src)[i], 120)
}

/// Lowercase hexadecimal digits of `n` (what `{:x}` prints).
pub open spec fn hex(n: nat) -> Seq<char>
    decreases n,
{
    if n < 16 {
        seq![hex_digit(n)]
    } else {
        hex(n / 16).push(hex_digit(n % 16))
    }
}

pub open spec fn hex_digit(d: nat) -> char {
    if d < 10 {
        digit_char(d)
    } else if d == 10 {
        'a'
    } else if d == 11 {
        'b'
    } else if d == 12 {
        'c'
    } else if d == 13 {
        'd'
    } else if d == 14 {
        'e'
    } else {
        'f'
    }
}

/// Name for what std's `DefaultHasher` (created by `new`, fed the bytes with
/// `write`) returns from `finish`. `DefaultHasher::new` starts from fixed
/// keys, so equal bytes hash equally for a given build of std; which
/// algorithm std uses is not specified and may change between releases.
pub uninterp spec fn default_hash(bytes: Seq<u8>) -> u64;

/// Hashes the bytes with `std::collections::hash_map::DefaultHasher`
/// (`new`, `write`, `finish`); its result is named `default_hash`.
#[verifier::external_body]
fn default_hasher_digest(bytes: &[u8]) -> (r: u64)
    ensures
        r == default_hash(bytes@),
{
    let mut hasher = std::collections::hash_map::DefaultHasher::new();
    hasher.write(bytes);
    hasher.finish()
}

/// Approximate token count: four bytes per token, rounded up.
pub open spec fn token_estimate(byte_len: nat) -> nat {
    (byte_len + 3) / 4
}


fn hex_char(d: u64) -> (r: char)
    requires
        d < 16,
    ensures
        r == hex_digit(d as nat),
{
    if d == 0 { '0' }
    else if d == 1 { '1' }
    else if d == 2 { '2' }
    else if d == 3 { '3' }
    else if d == 4 { '4' }
    else if d == 5 { '5' }
    else if d == 6 { '6' }
    else if d == 7 { '7' }
    else if d == 8 { '8' }
    else if d == 9 { '9' }
    else if d == 10 { 'a' }
    else if d == 11 { 'b' }
    else if d == 12 { 'c' }
    else if d == 13 { 'd' }
    else if d == 14 { 'e' }
    else { 'f' }
}

/// `n` in lowercase hexadecimal.
pub fn hex_chars(n: u64) -> (r: Vec<char>)
    ensures
        r@ == hex(n as nat),
    decreases n,
{
    if n < 16 {
        let mut r = Vec::new();
        r.push(hex_char(n));
        proof {
            assert(r@ =~= seq![hex_digit(n as nat)]);
        }
        r
    } else {
        let mut r = hex_chars(n / 16);
        r.push(hex_char(n % 16));
        r
    }
}

/// The longest prefix of `v` that fits in `budget` UTF-8 bytes.
pub fn prefix_within_bytes(v: &[char], budget: usize) -> (r: Vec<char>)
    ensures
        r@ == prefix_within(v@, budget as nat),
{
    let mut used: usize = 0;
    let mut i: usize = 0;
    proof {
        assert(v@.skip(0) =~= v@);
        assert(v@.take(0) =~= Seq::<char>::empty());
    }
    while i < v.len() && char_utf8_width(v[i]) <= budget - used
        invariant
            i <= v@.len(),
            used <= budget,
            prefix_within(v@, budget as nat) == v@.take(i as int) + prefix_within(
                v@.skip(i as int),
                (budget - used) as nat,
            ),
        decreases v.len() - i,
    {
        let w = char_utf8_width(v[i]);
        proof {
            let rest = v@.skip(i as int);
            assert(rest[0] == v@[i as int]);
            assert(rest.drop_first() =~= v@.skip(i + 1));
            assert(v@.take(i + 1) =~= v@.take(i as int) + seq![v@[i as int]]);
            assert(v@.take(i as int) + (seq![rest[0]] + prefix_within(
                rest.drop_first(),
                (budget - used - w) as nat,
            )) =~= v@.take(i + 1) + prefix_within(v@.skip(i + 1), (budget - used - w) as nat));
        }
        used = used + w;
        i += 1;
    }
    proof {
        assert(prefix_within(v@.skip(i as int), (budget - used) as nat) =~= Seq::<char>::empty());
        assert(v@.take(i as int) + Seq::<char>::empty() =~= v@.take(i as int));
    }
    slice_copy_all(v, i)
}

fn slice_copy_all(v: &[char], n: usize) -> (r: Vec<char>)
    requires
        n <= v@.len(),
    ensures
        r@ == v@.take(n as int),
{
    let r = crate::text::slice_copy(v, 0, n);
    assert(v@.subrange(0, n as int) =~= v@.take(n as int));
    r
}

fn trim_comment_marks_exec(v: &[char]) -> (r: Vec<char>)
    ensures
        r@ == trim_comment_marks(v@),
{
    let mut a: usize = 0;
    proof {
        assert(v@.skip(0) =~= v@);
    }
    while a < v.len() && (v[a] == '/' || v[a] == '#' || v[a] == '-' || v[a] == '*' || v[a]
        == ' ')
        invariant
            a <= v@.len(),
            trim_comment_marks(v@) == trim_comment_marks(v@.skip(a as int)),
        decreases v.len() - a,
    {
        proof {
            assert(v@.skip(a as int).drop_first() =~= v@.skip(a + 1));
        }
        a += 1;
    }
    let r = crate::text::slice_copy(v, a, v.len());
    assert(v@.subrange(a as int, v@.len() as int) =~= v@.skip(a as int));
    r
}

fn is_decl_line(t: &[char]) -> (r: bool)
    ensures
        r == is_decl(t@),
{
    has_prefix(t, &chars_of("pub ")) || has_prefix(t, &chars_of("fn ")) || has_prefix(
        t,
        &chars_of("def "),
    ) || has_prefix(t, &chars_of("class ")) || has_prefix(t, &chars_of("function "))
        || has_prefix(t, &chars_of("export ")) || has_prefix(t, &chars_of("impl "))
        || has_prefix(t, &chars_of("struct ")) || has_prefix(t, &chars_of("enum "))
        || has_prefix(t, &chars_of("interface ")) || has_prefix(t, &chars_of("type "))
        || has_prefix(t, &chars_of("const ")) || has_prefix(t, &chars_of("func "))
        || has_prefix(t, &chars_of("async "))
}

fn import_line(t: &[char], lang: &[char]) -> (r: bool)
    ensures
        r == is_import_line(t@, lang@),
{
    if chars_are(lang, "typescript") || chars_are(lang, "javascript") {
        has_prefix(t, &chars_of("import ")) || has_prefix(t, &chars_of("require("))
    } else if chars_are(lang, "python") {
        has_prefix(t, &chars_of("import ")) || has_prefix(t, &chars_of("from "))
    } else if chars_are(lang, "rust") {
        has_prefix(t, &chars_of("use ")) || has_prefix(t, &chars_of("extern "))
    } else if chars_are(lang, "go") {
        has_prefix(t, &chars_of("import")) || has_prefix(t, &chars_of("require"))
    } else if chars_are(lang, "java") {
        has_prefix(t, &chars_of("import "))
    } else if chars_are(lang, "ruby") {
        has_prefix(t, &chars_of("require ")) || has_prefix(t, &chars_of("require_relative "))
    } else {
        false
    }
}

fn header_part_exec(t: &[char]) -> (r: Option<Vec<char>>)
    ensures
        match r {
            Some(x) => header_part(t@) == Some(x@),
            None => header_part(t@) is None,
        },
{
    if has_prefix(t, &chars_of("#!/")) {
        Some(crate::text::slice_copy_whole(t))
    } else if has_prefix(t, &chars_of("//")) || has_prefix(t, &chars_of("#")) || has_prefix(
        t,
        &chars_of("/*"),
    ) || has_prefix(t, &chars_of("--")) {
        Some(trim_comment_marks_exec(t))
    } else {
        None
    }
}

pub proof fn lemma_prefix_within_len(s: Seq<char>, budget: nat)
    ensures
        utf8_len(prefix_within(s, budget)) <= budget,
    decreases s.len(),
{
    if s.len() == 0 || utf8_width(s[0]) > budget {
        assert(utf8_len(prefix_within(s, budget)) == 0);
    } else {
        let rest = prefix_within(s.drop_first(), (budget - utf8_width(s[0])) as nat);
        lemma_prefix_within_len(s.drop_first(), (budget - utf8_width(s[0])) as nat);
        lemma_utf8_len_concat(seq![s[0]], rest);
        assert(seq![s[0]].drop_first() =~= Seq::<char>::empty());
        assert(utf8_len(seq![s[0]]) == utf8_width(s[0]) + utf8_len(seq![s[0]].drop_first()));
    }
}

pub proof fn lemma_decl_lines_prefix(ls: Seq<Seq<char>>, i: int)
    requires
        0 <= i <= ls.len(),
    ensures
        decl_lines(ls.take(i)).len() <= decl_lines(ls).len(),
        decl_lines(ls).take(decl_lines(ls.take(i)).len() as int) == decl_lines(ls.take(i)),
    decreases ls.len() - i,
{
    if i == ls.len() {
        assert(ls.take(i) =~= ls);
        assert(decl_lines(ls).take(decl_lines(ls).len() as int) =~= decl_lines(ls));
    } else {
        assert(ls.drop_last().take(i) =~= ls.take(i));
        lemma_decl_lines_prefix(ls.drop_last(), i);
        let a = decl_lines(ls.take(i));
        let b = decl_lines(ls.drop_last());
        let c = decl_lines(ls);
        assert(c.take(a.len() as int) =~= b.take(a.len() as int));
    }
}

impl Parser {
    /// Detect the programming language from the file extension.
    pub fn detect_language(path: &str) -> (r: Option<&'static str>)
        ensures
            opt_str_view(r) == detected_language(path@),
    {
        let v = chars_of(path);
        let ext = lowercase(&after_last_char(&v, '.'));
        if chars_are(&ext, "ts") || chars_are(&ext, "tsx") || chars_are(&ext, "mts") {
            Some("typescript")
        } else if chars_are(&ext, "js") || chars_are(&ext, "jsx") || chars_are(&ext, "mjs") {
            Some("javascript")
        } else if chars_are(&ext, "py") {
            Some("python")
        } else if chars_are(&ext, "rs") {
            Some("rust")
        } else if chars_are(&ext, "go") {
            Some("go")
        } else if chars_are(&ext, "java") {
            Some("java")
        } else if chars_are(&ext, "rb") {
            Some("ruby")
        } else if chars_are(&ext, "c") || chars_are(&ext, "h") {
            Some("c")
        } else if chars_are(&ext, "cpp") || chars_are(&ext, "hpp") || chars_are(&ext, "cc")
            || chars_are(&ext, "cxx") {
            Some("cpp")
        } else if chars_are(&ext, "zig") {
            Some("zig")
        } else if chars_are(&ext, "swift") {
            Some("swift")
        } else if chars_are(&ext, "kt") || chars_are(&ext, "kts") {
            Some("kotlin")
        } else if chars_are(&ext, "scala") {
            Some("scala")
        } else if chars_are(&ext, "ex") || chars_are(&ext, "exs") {
            Some("elixir")
        } else if chars_are(&ext, "hs") {
            Some("haskell")
        } else if chars_are(&ext, "lua") {
            Some("lua")
        } else {
            None
        }
    }

    /// Whether the summary of `source` can be built: every declaration line
    /// it shows is cut at 120 bytes on a character boundary.
    pub fn summary_is_cuttable(source: &str) -> (r: bool)
        ensures
            r == summary_cuts_cleanly(source@),
    {
        let v = chars_of(source);
        let ls = split_lines(&v);
        let decls = Self::declaration_lines(&ls);
        let mut i: usize = 0;
        while i < decls.len()
            invariant
                i <= decls@.len(),
                decls.deep_view() == declarations(source@),
                forall|j: int| 0 <= j < i ==> cuts_cleanly(#[trigger] declarations(source@)[j], 120),
            decreases decls.len() - i,
        {
            let d = &decls[i];
            let p = prefix_within_bytes(d, 120);
            proof {
                crate::text::lemma_chars_deep_view(decls@[i as int]);
                lemma_prefix_within_len(d@, 120);
                assert(d@ == declarations(source@)[i as int]);
            }
            let ok = utf8_bytes_at_most(d, 120) || utf8_bytes_at_least(&p, 120);
            if !ok {
                assert(!cuts_cleanly(declarations(source@)[i as int], 120));
                return false;
            }
            i += 1;
        }
        true
    }

    /// Declaration lines of a source's lines: the first eight trimmed lines
    /// that open a declaration.
    fn declaration_lines(ls: &Vec<Vec<char>>) -> (r: Vec<Vec<char>>)
        ensures
            r.deep_view() == first_n(decl_lines(ls.deep_view()), 8),
    {
        let mut decls: Vec<Vec<char>> = Vec::new();
        let mut i: usize = 0;
        while i < ls.len() && decls.len() < 8
            invariant
                i <= ls@.len(),
                decls@.len() <= 8,
                decls.deep_view() == decl_lines(ls.deep_view().take(i as int)),
            decreases ls.len() - i,
        {
            let t = trimmed(&ls[i]);
            proof {
                let lv = ls.deep_view();
                assert(lv.take(i + 1).drop_last() =~= lv.take(i as int));
                assert(lv.take(i + 1).last() == ls@[i as int]@);
            }
            if is_decl_line(&t) {
                let ghost before = decls;
                decls.push(t);
                proof {
                    lemma_push_deep_view(before, decls, t);
                }
            }
            i += 1;
        }
        proof {
            let lv = ls.deep_view();
            lemma_decl_lines_prefix(lv, i as int);
            if i == ls.len() {
                assert(lv.take(i as int) =~= lv);
            } else {
                assert(decl_lines(lv).take(8) =~= decls.deep_view());
            }
        }
        decls
    }

    /// Parse a file: summary, import lines, token estimate and content hash.
    pub fn parse(source: &str, language: &str) -> (r: Result<ParsedFile, core::convert::Infallible>)
        requires
            summary_cuts_cleanly(source@),
        ensures
            r matches Ok(p) && p.summary@ == summary_of(source@) && p.imports.deep_view()
                == imports_of(lines(source@), language@) && p.token_count == token_estimate(
                utf8_len(source@),
            ) && p.tree_hash@ == hex(default_hash(source.spec_bytes()) as nat),
    {
        let summary = Self::extract_summary(source, language);
        let imports = Self::extract_imports(source, language);
        let token_count = Self::count_tokens(source);
        let tree_hash = Self::hash(source);
        Ok(ParsedFile { summary, imports, token_count, tree_hash })
    }

    /// Brief summary: shebang and comment lines among the first five lines,
    /// then up to eight declaration lines.
    pub fn extract_summary(source: &str, _language: &str) -> (r: String)
        requires
            summary_cuts_cleanly(source@),
        ensures
            r@ == summary_of(source@),
    {
        let v = chars_of(source);
        let ls = split_lines(&v);
        let ghost lv = ls.deep_view();
        let mut parts: Vec<Vec<char>> = Vec::new();
        let lim = if ls.len() < 5 {
            ls.len()
        } else {
            5
        };
        let mut i: usize = 0;
        while i < lim
            invariant
                lim <= ls@.len(),
                lim == first_n(lv, 5).len(),
                i <= lim,
                lv == ls.deep_view(),
                parts.deep_view() == header_parts(first_n(lv, 5).take(i as int)),
            decreases lim - i,
        {
            let t = trimmed(&ls[i]);
            proof {
                let f = first_n(lv, 5);
                assert(f.take(i + 1).drop_last() =~= f.take(i as int));
                assert(f.take(i + 1).last() == ls@[i as int]@);
            }
            match header_part_exec(&t) {
                Some(x) => {
                    let ghost before = parts;
                    parts.push(x);
                    proof {
                        lemma_push_deep_view(before, parts, x);
                    }
                },
                None => {},
            }
            i += 1;
        }
        proof {
            assert(first_n(lv, 5).take(lim as int) =~= first_n(lv, 5));
        }
        let decls = Self::declaration_lines(&ls);
        let ghost h = parts.deep_view();
        if decls.len() > 0 {
            if parts.len() > 0 {
                let empty: Vec<char> = Vec::new();
                let ghost before = parts;
                let ghost e = empty;
                parts.push(empty);
                proof {
                    lemma_push_deep_view(before, parts, e);
                }
            }
            let ghost h2 = parts.deep_view();
            let label = chars_of("Declarations:");
            let ghost before = parts;
            parts.push(label);
            proof {
                lemma_push_deep_view(before, parts, label);
            }
            let ghost base = parts.deep_view();
            let mut k: usize = 0;
            while k < decls.len()
                invariant
                    k <= decls@.len(),
                    decls.deep_view() == declarations(source@),
                    parts.deep_view() == base + decls.deep_view().take(k as int).map_values(
                        |x: Seq<char>| prefix_within(x, 120),
                    ),
                decreases decls.len() - k,
            {
                let cut = prefix_within_bytes(&decls[k], 120);
                let ghost before = parts;
                parts.push(cut);
                proof {
                    lemma_push_deep_view(before, parts, cut);
                    crate::text::lemma_chars_deep_view(decls@[k as int]);
                    assert(parts.deep_view() =~= base + decls.deep_view().take(k + 1).map_values(
                        |x: Seq<char>| prefix_within(x, 120),
                    ));
                }
                k += 1;
            }
            proof {
                assert(decls.deep_view().take(decls@.len() as int) =~= decls.deep_view());
                assert(parts.deep_view() =~= summary_parts(source@));
            }
        }
        let nl = chars_of("\n");
        let joined = join_with(&parts, &nl);
        let t = trimmed(&joined);
        string_of(&t)
    }

    /// The trimmed import statements of a source, in order.
    pub fn extract_imports(source: &str, language: &str) -> (r: Vec<String>)
        ensures
            r.deep_view() == imports_of(lines(source@), language@),
    {
        let v = chars_of(source);
        let lang = chars_of(language);
        let ls = split_lines(&v);
        let ghost lv = ls.deep_view();
        let mut out: Vec<String> = Vec::new();
        let mut i: usize = 0;
        while i < ls.len()
            invariant
                i <= ls@.len(),
                lv == ls.deep_view(),
                lang@ == language@,
                out.deep_view() == imports_of(lv.take(i as int), language@),
            decreases ls.len() - i,
        {
            let t = trimmed(&ls[i]);
            proof {
                assert(lv.take(i + 1).drop_last() =~= lv.take(i as int));
                assert(lv.take(i + 1).last() == ls@[i as int]@);
            }
            if import_line(&t, &lang) {
                let s = string_of(&t);
                let ghost before = out;
                out.push(s);
                proof {
                    lemma_push_strings(before, out, s);
                }
            }
            i += 1;
        }
        proof {
            assert(lv.take(ls@.len() as int) =~= lv);
        }
        out
    }

    /// Approximate token count (four bytes per token, rounded up).
    pub fn count_tokens(source: &str) -> (r: usize)
        ensures
            r == token_estimate(utf8_len(source@)),
    {
        let n = crate::text::byte_len(source);
        n / 4 + if n % 4 != 0 {
            1
        } else {
            0
        }
    }

    /// Content hash for change detection: std's `DefaultHasher` over the
    /// source bytes, in lowercase hex.
    pub fn hash(source: &str) -> (r: String)
        ensures
            r@ == hex(default_hash(source.spec_bytes()) as nat),
    {
        let h = default_hasher_digest(source.as_bytes());
        string_of(&hex_chars(h))
    }

    /// Whether a path is skipped when indexing: it runs through an ignored
    /// directory or ends with an ignored extension.
    pub fn is_ignored(path: &str) -> (r: bool)
        ensures
            r == ignored_path(path@),
    {
        let p = chars_of(path);
        let dir = dir_hits(&p, "node_modules") || dir_hits(&p, ".git") || dir_hits(&p, "target")
            || dir_hits(&p, "dist") || dir_hits(&p, "build") || dir_hits(&p, ".next") || dir_hits(
            &p,
            ".nuxt",
        ) || dir_hits(&p, "vendor") || dir_hits(&p, ".tox") || dir_hits(&p, "__pycache__")
            || dir_hits(&p, ".venv") || dir_hits(&p, "venv") || dir_hits(&p, ".ctx") || dir_hits(
            &p,
            "coverage",
        ) || dir_hits(&p, ".terraform");
        if dir {
            return true;
        }
        has_suffix(&p, &chars_of(".min.js")) || has_suffix(&p, &chars_of(".min.css")) || has_suffix(
            &p,
            &chars_of(".map"),
        ) || has_suffix(&p, &chars_of(".svg")) || has_suffix(&p, &chars_of(".png")) || has_suffix(
            &p,
            &chars_of(".jpg"),
        ) || has_suffix(&p, &chars_of(".jpeg")) || has_suffix(&p, &chars_of(".gif")) || has_suffix(
            &p,
            &chars_of(".ico"),
        ) || has_suffix(&p, &chars_of(".woff")) || has_suffix(&p, &chars_of(".woff2"))
            || has_suffix(&p, &chars_of(".ttf")) || has_suffix(&p, &chars_of(".eot")) || has_suffix(
            &p,
            &chars_of(".mp4"),
        ) || has_suffix(&p, &chars_of(".mp3")) || has_suffix(&p, &chars_of(".wasm"))
            || has_suffix(&p, &chars_of(".lock"))
    }
}

fn dir_hits(p: &[char], d: &str) -> (r: bool)
    ensures
        r == dir_hit(p@, d@),
{
    let dv = chars_of(d);
    let mut with_both: Vec<char> = Vec::new();
    with_both.push('/');
    append_chars(&mut with_both, &dv);
    let mut with_lead = crate::text::slice_copy_whole(&with_both);
    with_both.push('/');
    assert(with_both@ =~= seq!['/'] + d@ + seq!['/']);
    assert(with_lead@ =~= seq!['/'] + d@);
    has_substring(p, &with_both) || has_substring(p, &with_lead)
}

/// Whether the UTF-8 encoding of `v` takes at most `n` bytes.
pub fn utf8_at_most(v: &[char], n: usize) -> (r: bool)
    ensures
        r == (utf8_len(v@) <= n),
{
    utf8_bytes_at_most(v, n)
}

fn utf8_bytes_at_most(v: &[char], n: usize) -> (r: bool)
    ensures
        r == (utf8_len(v@) <= n),
{
    let mut total: usize = 0;
    let mut i: usize = 0;
    while i < v.len()
        invariant
            i <= v@.len(),
            total <= n,
            total == utf8_len(v@.take(i as int)),
        decreases v.len() - i,
    {
        proof {
            crate::text::lemma_utf8_len_push(v@.take(i as int), v@[i as int]);
            assert(v@.take(i + 1) =~= v@.take(i as int).push(v@[i as int]));
            lemma_utf8_len_concat(v@.take(i + 1), v@.skip(i + 1));
            assert(v@.take(i + 1) + v@.skip(i + 1) =~= v@);
        }
        let w = char_utf8_width(v[i]);
        if w > n - total {
            return false;
        }
        total = total + w;
        i += 1;
    }
    proof {
        assert(v@.take(v@.len() as int) =~= v@);
    }
    true
}

/// Whether the UTF-8 encoding of `v` takes at least `n` bytes.
fn utf8_bytes_at_least(v: &[char], n: usize) -> (r: bool)
    ensures
        r == (utf8_len(v@) >= n),
{
    if utf8_bytes_at_most(v, n) {
        let r = !utf8_bytes_at_most_strict(v, n);
        r
    } else {
        true
    }
}

/// Whether the UTF-8 encoding of `v` takes fewer than `n` bytes.
fn utf8_bytes_at_most_strict(v: &[char], n: usize) -> (r: bool)
    ensures
        r == (utf8_len(v@) < n),
{
    if n == 0 {
        false
    } else {
        utf8_bytes_at_most(v, n - 1)
    }
}


/// Law: the text after the last `.` of a path is a suffix of the path with
/// no `.` in it, and either the whole path (no `.` at all) or what follows
/// a `.`.
pub proof fn law_after_last_dot(path: Seq<char>)
    ensures
        ({
            let e = after_last(path, '.');
            &&& e.len() <= path.len()
            &&& e == path.skip(path.len() - e.len())
            &&& forall|k: int| 0 <= k < e.len() ==> e[k] != '.'
            &&& e.len() == path.len() || path[path.len() - e.len() - 1] == '.'
        }),
    decreases path.len(),
{
    if path.len() > 0 && path.last() != '.' {
        let d = path.drop_last();
        law_after_last_dot(d);
        let e0 = after_last(d, '.');
        let e = after_last(path, '.');
        assert(e == e0.push(path.last()));
        assert(e =~= path.skip(path.len() - e.len()));
        if e0.len() < d.len() {
            assert(path[path.len() - e.len() - 1] == d[d.len() - e0.len() - 1]);
        }
    } else if path.len() > 0 {
        assert(path.skip(path.len() as int) =~= Seq::<char>::empty());
    }
}

/// Law: the languages and the extensions that name them. A path's language
/// is decided by the text after its last `.`, lowercased: ts, tsx, mts are
/// TypeScript; js, jsx, mjs JavaScript; py Python; rs Rust; go Go; java
/// Java; rb Ruby; c, h C; cpp, hpp, cc, cxx C++; zig Zig; swift Swift; kt,
/// kts Kotlin; scala Scala; ex, exs Elixir; hs Haskell; lua Lua; any other
/// extension has no language.
pub proof fn law_language_table(path: Seq<char>)
    ensures
        ({
            let e = unicode_lowercase(after_last(path, '.'));
            let l = detected_language(path);
            &&& (e == "ts"@ || e == "tsx"@ || e == "mts"@) <==> l == Some("typescript"@)
            &&& (e == "js"@ || e == "jsx"@ || e == "mjs"@) <==> l == Some("javascript"@)
            &&& e == "py"@ <==> l == Some("python"@)
            &&& e == "rs"@ <==> l == Some("rust"@)
            &&& e == "go"@ <==> l == Some("go"@)
            &&& e == "java"@ <==> l == Some("java"@)
            &&& e == "rb"@ <==> l == Some("ruby"@)
            &&& (e == "c"@ || e == "h"@) <==> l == Some("c"@)
            &&& (e == "cpp"@ || e == "hpp"@ || e == "cc"@ || e == "cxx"@) <==> l == Some("cpp"@)
            &&& e == "zig"@ <==> l == Some("zig"@)
            &&& e == "swift"@ <==> l == Some("swift"@)
            &&& (e == "kt"@ || e == "kts"@) <==> l == Some("kotlin"@)
            &&& e == "scala"@ <==> l == Some("scala"@)
            &&& (e == "ex"@ || e == "exs"@) <==> l == Some("elixir"@)
            &&& e == "hs"@ <==> l == Some("haskell"@)
            &&& e == "lua"@ <==> l == Some("lua"@)
            &&& l is Some <==> (e == "ts"@ || e == "tsx"@ || e == "mts"@ || e == "js"@ || e == "jsx"@
                || e == "mjs"@ || e == "py"@ || e == "rs"@ || e == "go"@ || e == "java"@ || e
                == "rb"@ || e == "c"@ || e == "h"@ || e == "cpp"@ || e == "hpp"@ || e == "cc"@ || e
                == "cxx"@ || e == "zig"@ || e == "swift"@ || e == "kt"@ || e == "kts"@ || e
                == "scala"@ || e == "ex"@ || e == "exs"@ || e == "hs"@ || e == "lua"@)
        }),
{
    reveal_strlit("ts");
    assert("ts"@.len() == 2);
    assert("ts"@[0] == 't');
    assert("ts"@[1] == 's');
    reveal_strlit("tsx");
    assert("tsx"@.len() == 3);
    assert("tsx"@[0] == 't');
    assert("tsx"@[1] == 's');
    assert("tsx"@[2] == 'x');
    reveal_strlit("mts");
    assert("mts"@.len() == 3);
    assert("mts"@[0] == 'm');
    assert("mts"@[1] == 't');
    assert("mts"@[2] == 's');
    reveal_strlit("js");
    assert("js"@.len() == 2);
    assert("js"@[0] == 'j');
    assert("js"@[1] == 's');
    reveal_strlit("jsx");
    assert("jsx"@.len() == 3);
    assert("jsx"@[0] == 'j');
    assert("jsx"@[1] == 's');
    assert("jsx"@[2] == 'x');
    reveal_strlit("mjs");
    assert("mjs"@.len() == 3);
    assert("mjs"@[0] == 'm');
    assert("mjs"@[1] == 'j');
    assert("mjs"@[2] == 's');
    reveal_strlit("py");
    assert("py"@.len() == 2);
    assert("py"@[0] == 'p');
    assert("py"@[1] == 'y');
    reveal_strlit("rs");
    assert("rs"@.len() == 2);
    assert("rs"@[0] == 'r');
    assert("rs"@[1] == 's');
    reveal_strlit("go");
    assert("go"@.len() == 2);
    assert("go"@[0] == 'g');
    assert("go"@[1] == 'o');
    reveal_strlit("java");
    assert("java"@.len() == 4);
    assert("java"@[0] == 'j');
    assert("java"@[1] == 'a');
    assert("java"@[2] == 'v');
    reveal_strlit("rb");
    assert("rb"@.len() == 2);
    assert("rb"@[0] == 'r');
    assert("rb"@[1] == 'b');
    reveal_strlit("c");
    assert("c"@.len() == 1);
    assert("c"@[0] == 'c');
    reveal_strlit("h");
    assert("h"@.len() == 1);
    assert("h"@[0] == 'h');
    reveal_strlit("cpp");
    assert("cpp"@.len() == 3);
    assert("cpp"@[0] == 'c');
    assert("cpp"@[1] == 'p');
    assert("cpp"@[2] == 'p');
    reveal_strlit("hpp");
    assert("hpp"@.len() == 3);
    assert("hpp"@[0] == 'h');
    assert("hpp"@[1] == 'p');
    assert("hpp"@[2] == 'p');
    reveal_strlit("cc");
    assert("cc"@.len() == 2);
    assert("cc"@[0] == 'c');
    assert("cc"@[1] == 'c');
    reveal_strlit("cxx");
    assert("cxx"@.len() == 3);
    assert("cxx"@[0] == 'c');
    assert("cxx"@[1] == 'x');
    assert("cxx"@[2] == 'x');
    reveal_strlit("zig");
    assert("zig"@.len() == 3);
    assert("zig"@[0] == 'z');
    assert("zig"@[1] == 'i');
    assert("zig"@[2] == 'g');
    reveal_strlit("swift");
    assert("swift"@.len() == 5);
    assert("swift"@[0] == 's');
    assert("swift"@[1] == 'w');
    assert("swift"@[2] == 'i');
    reveal_strlit("kt");
    assert("kt"@.len() == 2);
    assert("kt"@[0] == 'k');
    assert("kt"@[1] == 't');
    reveal_strlit("kts");
    assert("kts"@.len() == 3);
    assert("kts"@[0] == 'k');
    assert("kts"@[1] == 't');
    assert("kts"@[2] == 's');
    reveal_strlit("scala");
    assert("scala"@.len() == 5);
    assert("scala"@[0] == 's');
    assert("scala"@[1] == 'c');
    assert("scala"@[2] == 'a');
    reveal_strlit("ex");
    assert("ex"@.len() == 2);
    assert("ex"@[0] == 'e');
    assert("ex"@[1] == 'x');
    reveal_strlit("exs");
    assert("exs"@.len() == 3);
    assert("exs"@[0] == 'e');
    assert("exs"@[1] == 'x');
    assert("exs"@[2] == 's');
    reveal_strlit("hs");
    assert("hs"@.len() == 2);
    assert("hs"@[0] == 'h');
    assert("hs"@[1] == 's');
    reveal_strlit("lua");
    assert("lua"@.len() == 3);
    assert("lua"@[0] == 'l');
    assert("lua"@[1] == 'u');
    assert("lua"@[2] == 'a');
    reveal_strlit("typescript");
    assert("typescript"@.len() == 10);
    assert("typescript"@[0] == 't');
    assert("typescript"@[1] == 'y');
    assert("typescript"@[2] == 'p');
    reveal_strlit("javascript");
    assert("javascript"@.len() == 10);
    assert("javascript"@[0] == 'j');
    assert("javascript"@[1] == 'a');
    assert("javascript"@[2] == 'v');
    reveal_strlit("python");
    assert("python"@.len() == 6);
    assert("python"@[0] == 'p');
    assert("python"@[1] == 'y');
    assert("python"@[2] == 't');
    reveal_strlit("rust");
    assert("rust"@.len() == 4);
    assert("rust"@[0] == 'r');
    assert("rust"@[1] == 'u');
    assert("rust"@[2] == 's');
    reveal_strlit("ruby");
    assert("ruby"@.len() == 4);
    assert("ruby"@[0] == 'r');
    assert("ruby"@[1] == 'u');
    assert("ruby"@[2] == 'b');
    reveal_strlit("kotlin");
    assert("kotlin"@.len() == 6);
    assert("kotlin"@[0] == 'k');
    assert("kotlin"@[1] == 'o');
    assert("kotlin"@[2] == 't');
    reveal_strlit("elixir");
    assert("elixir"@.len() == 6);
    assert("elixir"@[0] == 'e');
    assert("elixir"@[1] == 'l');
    assert("elixir"@[2] == 'i');
    reveal_strlit("haskell");
    assert("haskell"@.len() == 7);
    assert("haskell"@[0] == 'h');
    assert("haskell"@[1] == 'a');
    assert("haskell"@[2] == 's');
}

/// The statement forms `extract_imports` collects, per language.
pub open spec fn listed_import(t: Seq<char>, lang: Seq<char>) -> bool {
    ||| (lang == "typescript"@ || lang == "javascript"@) && (starts_with(t, "import "@) || starts_with(t, "require("@))
    ||| lang == "python"@ && (starts_with(t, "import "@) || starts_with(t, "from "@))
    ||| lang == "rust"@ && (starts_with(t, "use "@) || starts_with(t, "extern "@))
    ||| lang == "go"@ && (starts_with(t, "import"@) || starts_with(t, "require"@))
    ||| lang == "java"@ && starts_with(t, "import "@)
    ||| lang == "ruby"@ && (starts_with(t, "require "@) || starts_with(t, "require_relative "@))
}

/// The index of the source line the `i`-th extracted import comes from.
pub closed spec fn import_origin(ls: Seq<Seq<char>>, lang: Seq<char>, i: int) -> int
    decreases ls.len(),
{
    if ls.len() == 0 {
        0
    } else if i < imports_of(ls.drop_last(), lang).len() {
        import_origin(ls.drop_last(), lang, i)
    } else {
        ls.len() - 1
    }
}

proof fn lemma_imports_of_members(ls: Seq<Seq<char>>, lang: Seq<char>)
    ensures
        forall|i: int|
            0 <= i < imports_of(ls, lang).len() ==> 0 <= #[trigger] import_origin(ls, lang, i) < ls.len()
                && imports_of(ls, lang)[i] == trim(ls[import_origin(ls, lang, i)]) && is_import_line(
                imports_of(ls, lang)[i],
                lang,
            ),
        forall|j: int|
            0 <= j < ls.len() && is_import_line(trim(#[trigger] ls[j]), lang) ==> exists|i: int|
                0 <= i < imports_of(ls, lang).len() && imports_of(ls, lang)[i] == trim(ls[j]),
    decreases ls.len(),
{
    if ls.len() > 0 {
        let d = ls.drop_last();
        lemma_imports_of_members(d, lang);
        let prev = imports_of(d, lang);
        let out = imports_of(ls, lang);
        let t = trim(ls.last());
        assert(out == if is_import_line(t, lang) { prev.push(t) } else { prev });
        assert forall|i: int| 0 <= i < out.len() implies 0 <= #[trigger] import_origin(ls, lang, i)
            < ls.len() && out[i] == trim(ls[import_origin(ls, lang, i)]) && is_import_line(out[i], lang) by {
            if i < prev.len() {
                assert(import_origin(ls, lang, i) == import_origin(d, lang, i));
                assert(out[i] == prev[i]);
                assert(ls[import_origin(d, lang, i)] == d[import_origin(d, lang, i)]);
            } else {
                assert(import_origin(ls, lang, i) == ls.len() - 1);
                assert(ls[ls.len() - 1] == ls.last());
            }
        }
        assert forall|j: int| 0 <= j < ls.len() && is_import_line(trim(#[trigger] ls[j]), lang) implies exists|
            i: int,
        | 0 <= i < out.len() && out[i] == trim(ls[j]) by {
            if j < d.len() {
                assert(ls[j] == d[j]);
                let i = choose|i: int| 0 <= i < prev.len() && prev[i] == trim(d[j]);
                assert(out[i] == prev[i]);
            } else {
                assert(ls[j] == ls.last());
                assert(out[prev.len() as int] == trim(ls[j]));
            }
        }
    }
}

/// `listed_import` names the same lines as the parser's own test.
proof fn lemma_listed_import_matches(lang: Seq<char>)
    ensures
        forall|t: Seq<char>| #[trigger] is_import_line(t, lang) == listed_import(t, lang),
{
    reveal_strlit("typescript");
    assert("typescript"@.len() == 10);
    assert("typescript"@[0] == 't');
    assert("typescript"@[1] == 'y');
    assert("typescript"@[2] == 'p');
    reveal_strlit("javascript");
    assert("javascript"@.len() == 10);
    assert("javascript"@[0] == 'j');
    assert("javascript"@[1] == 'a');
    assert("javascript"@[2] == 'v');
    reveal_strlit("python");
    assert("python"@.len() == 6);
    assert("python"@[0] == 'p');
    assert("python"@[1] == 'y');
    assert("python"@[2] == 't');
    reveal_strlit("rust");
    assert("rust"@.len() == 4);
    assert("rust"@[0] == 'r');
    assert("rust"@[1] == 'u');
    assert("rust"@[2] == 's');
    reveal_strlit("go");
    assert("go"@.len() == 2);
    assert("go"@[0] == 'g');
    assert("go"@[1] == 'o');
    reveal_strlit("java");
    assert("java"@.len() == 4);
    assert("java"@[0] == 'j');
    assert("java"@[1] == 'a');
    assert("java"@[2] == 'v');
    reveal_strlit("ruby");
    assert("ruby"@.len() == 4);
    assert("ruby"@[0] == 'r');
    assert("ruby"@[1] == 'u');
    assert("ruby"@[2] == 'b');
    assert forall|t: Seq<char>| #[trigger] is_import_line(t, lang) == listed_import(t, lang) by {}
}

/// Law: the imports of a source are exactly its trimmed lines in one of the
/// language's statement forms: TypeScript and JavaScript `import ` and
/// `require(`, Python `import ` and `from `, Rust `use ` and `extern `, Go
/// `import` and `require`, Java `import `, Ruby `require ` and
/// `require_relative `; other languages have none.
pub proof fn law_import_lines(src: Seq<char>, lang: Seq<char>)
    ensures
        forall|i: int|
            0 <= i < imports_of(lines(src), lang).len() ==> listed_import(
                #[trigger] imports_of(lines(src), lang)[i],
                lang,
            ) && exists|j: int|
                0 <= j < lines(src).len() && imports_of(lines(src), lang)[i] == trim(lines(src)[j]),
        forall|j: int|
            0 <= j < lines(src).len() && listed_import(trim(#[trigger] lines(src)[j]), lang)
                ==> exists|i: int|
                0 <= i < imports_of(lines(src), lang).len() && imports_of(lines(src), lang)[i]
                    == trim(lines(src)[j]),
{
    let ls = lines(src);
    lemma_imports_of_members(ls, lang);
    lemma_listed_import_matches(lang);
    let imps = imports_of(ls, lang);
    assert forall|i: int| 0 <= i < imps.len() implies listed_import(#[trigger] imps[i], lang) && exists|
        j: int,
    | 0 <= j < ls.len() && imps[i] == trim(ls[j]) by {
        let j = import_origin(ls, lang, i);
        assert(is_import_line(imps[i], lang));
        assert(imps[i] == trim(ls[j]));
    }
    assert forall|j: int| 0 <= j < ls.len() && listed_import(trim(#[trigger] ls[j]), lang) implies exists|
        i: int,
    | 0 <= i < imps.len() && imps[i] == trim(ls[j]) by {
        assert(is_import_line(trim(ls[j]), lang));
    }
}


proof fn lemma_import_origin_order(ls: Seq<Seq<char>>, lang: Seq<char>)
    ensures
        forall|i1: int, i2: int|
            0 <= i1 < i2 < imports_of(ls, lang).len() ==> #[trigger] import_origin(ls, lang, i1)
                < #[trigger] import_origin(ls, lang, i2),
        forall|j: int|
            0 <= j < ls.len() && is_import_line(trim(#[trigger] ls[j]), lang) ==> exists|i: int|
                0 <= i < imports_of(ls, lang).len() && import_origin(ls, lang, i) == j,
    decreases ls.len(),
{
    if ls.len() > 0 {
        let d = ls.drop_last();
        lemma_import_origin_order(d, lang);
        lemma_imports_of_members(d, lang);
        let prev = imports_of(d, lang);
        let out = imports_of(ls, lang);
        let t = trim(ls.last());
        assert(out == if is_import_line(t, lang) { prev.push(t) } else { prev });
        assert forall|i1: int, i2: int| 0 <= i1 < i2 < out.len() implies #[trigger] import_origin(
            ls,
            lang,
            i1,
        ) < #[trigger] import_origin(ls, lang, i2) by {
            assert(import_origin(ls, lang, i1) == import_origin(d, lang, i1));
            if i2 < prev.len() {
                assert(import_origin(ls, lang, i2) == import_origin(d, lang, i2));
            } else {
                assert(import_origin(ls, lang, i2) == ls.len() - 1);
                assert(import_origin(d, lang, i1) < d.len());
            }
        }
        assert forall|j: int| 0 <= j < ls.len() && is_import_line(trim(#[trigger] ls[j]), lang) implies exists|
            i: int,
        | 0 <= i < out.len() && import_origin(ls, lang, i) == j by {
            if j < d.len() {
                assert(ls[j] == d[j]);
                let i = choose|i: int| 0 <= i < prev.len() && import_origin(d, lang, i) == j;
                assert(import_origin(ls, lang, i) == import_origin(d, lang, i));
            } else {
                assert(ls[j] == ls.last());
                assert(import_origin(ls, lang, prev.len() as int) == ls.len() - 1);
            }
        }
    }
}

/// Law: the imports keep the order of the source. Each extracted import is
/// the trimmed form of its own source line, later imports come from later
/// lines, and every line in one of the language's import forms is the
/// origin of one of them; so the imports are exactly the import lines of the
/// source, trimmed, in source order.
pub proof fn law_imports_in_source_order(src: Seq<char>, lang: Seq<char>)
    ensures
        forall|i: int|
            0 <= i < imports_of(lines(src), lang).len() ==> 0 <= #[trigger] import_origin(
                lines(src),
                lang,
                i,
            ) < lines(src).len() && imports_of(lines(src), lang)[i] == trim(
                lines(src)[import_origin(lines(src), lang, i)],
            ),
        forall|i1: int, i2: int|
            0 <= i1 < i2 < imports_of(lines(src), lang).len() ==> #[trigger] import_origin(
                lines(src),
                lang,
                i1,
            ) < #[trigger] import_origin(lines(src), lang, i2),
        forall|j: int|
            0 <= j < lines(src).len() && listed_import(trim(#[trigger] lines(src)[j]), lang)
                ==> exists|i: int|
                0 <= i < imports_of(lines(src), lang).len() && import_origin(lines(src), lang, i) == j,
{
    let ls = lines(src);
    let imps = imports_of(ls, lang);
    assert forall|i: int| 0 <= i < imps.len() implies 0 <= #[trigger] import_origin(ls, lang, i)
        < ls.len() && imps[i] == trim(ls[import_origin(ls, lang, i)]) by {
        lemma_imports_of_members(ls, lang);
    }
    assert forall|i1: int, i2: int| 0 <= i1 < i2 < imps.len() implies #[trigger] import_origin(
        ls,
        lang,
        i1,
    ) < #[trigger] import_origin(ls, lang, i2) by {
        lemma_import_origin_order(ls, lang);
    }
    assert forall|j: int| 0 <= j < ls.len() && listed_import(trim(#[trigger] ls[j]), lang) implies exists|
        i: int,
    | 0 <= i < imps.len() && import_origin(ls, lang, i) == j by {
        lemma_listed_import_matches(lang);
        assert(is_import_line(trim(ls[j]), lang));
        lemma_import_origin_order(ls, lang);
    }
}

/// The line a declaration line comes from.
spec fn decl_origin(ls: Seq<Seq<char>>, i: int) -> int
    decreases ls.len(),
{
    if ls.len() == 0 {
        0
    } else if i < decl_lines(ls.drop_last()).len() {
        decl_origin(ls.drop_last(), i)
    } else {
        ls.len() - 1
    }
}

proof fn lemma_decl_lines_members(ls: Seq<Seq<char>>)
    ensures
        forall|i: int|
            0 <= i < decl_lines(ls).len() ==> 0 <= #[trigger] decl_origin(ls, i) < ls.len()
                && decl_lines(ls)[i] == trim(ls[decl_origin(ls, i)]) && is_decl(decl_lines(ls)[i]),
        forall|j: int|
            0 <= j < ls.len() && is_decl(trim(#[trigger] ls[j])) ==> exists|i: int|
                0 <= i < decl_lines(ls).len() && decl_lines(ls)[i] == trim(ls[j]),
    decreases ls.len(),
{
    if ls.len() > 0 {
        let d = ls.drop_last();
        lemma_decl_lines_members(d);
        let prev = decl_lines(d);
        let out = decl_lines(ls);
        let t = trim(ls.last());
        assert(out == if is_decl(t) { prev.push(t) } else { prev });
        assert forall|i: int| 0 <= i < out.len() implies 0 <= #[trigger] decl_origin(ls, i) < ls.len()
            && out[i] == trim(ls[decl_origin(ls, i)]) && is_decl(out[i]) by {
            if i < prev.len() {
                assert(decl_origin(ls, i) == decl_origin(d, i));
                assert(out[i] == prev[i]);
                assert(ls[decl_origin(d, i)] == d[decl_origin(d, i)]);
            } else {
                assert(decl_origin(ls, i) == ls.len() - 1);
                assert(ls[ls.len() - 1] == ls.last());
            }
        }
        assert forall|j: int| 0 <= j < ls.len() && is_decl(trim(#[trigger] ls[j])) implies exists|i: int|
            0 <= i < out.len() && out[i] == trim(ls[j]) by {
            if j < d.len() {
                assert(ls[j] == d[j]);
                let i = choose|i: int| 0 <= i < prev.len() && prev[i] == trim(d[j]);
                assert(out[i] == prev[i]);
            } else {
                assert(ls[j] == ls.last());
                assert(out[prev.len() as int] == trim(ls[j]));
            }
        }
    }
}

/// The line openings that make a declaration in a summary.
pub open spec fn declaration_opening(t: Seq<char>) -> bool {
    ||| starts_with(t, "pub "@) ||| starts_with(t, "fn "@) ||| starts_with(t, "def "@)
    ||| starts_with(t, "class "@) ||| starts_with(t, "function "@) ||| starts_with(t, "export "@)
    ||| starts_with(t, "impl "@) ||| starts_with(t, "struct "@) ||| starts_with(t, "enum "@)
    ||| starts_with(t, "interface "@) ||| starts_with(t, "type "@) ||| starts_with(t, "const "@)
    ||| starts_with(t, "func "@) ||| starts_with(t, "async "@)
}

/// Law: the declarations a summary shows are at most eight trimmed lines of
/// the source, each opening with `pub `, `fn `, `def `, `class `,
/// `function `, `export `, `impl `, `struct `, `enum `, `interface `,
/// `type `, `const `, `func ` or `async `; and when there are fewer than
/// eight, every such line is among them.
pub proof fn law_declaration_lines(src: Seq<char>)
    ensures
        declarations(src).len() <= 8,
        forall|i: int|
            0 <= i < declarations(src).len() ==> declaration_opening(#[trigger] declarations(src)[i])
                && exists|j: int| 0 <= j < lines(src).len() && declarations(src)[i] == trim(lines(src)[j]),
        declarations(src).len() < 8 ==> forall|j: int|
            0 <= j < lines(src).len() && declaration_opening(trim(#[trigger] lines(src)[j])) ==> exists|
                i: int,
            | 0 <= i < declarations(src).len() && declarations(src)[i] == trim(lines(src)[j]),
{
    let ls = lines(src);
    lemma_decl_lines_members(ls);
    assert forall|t: Seq<char>| #[trigger] is_decl(t) == declaration_opening(t) by {}
    let all = decl_lines(ls);
    let ds = declarations(src);
    assert(ds == first_n(all, 8));
    assert forall|i: int| 0 <= i < ds.len() implies declaration_opening(#[trigger] ds[i]) && exists|j: int|
        0 <= j < ls.len() && ds[i] == trim(ls[j]) by {
        assert(ds[i] == all[i]);
        let j = decl_origin(ls, i);
        assert(all[i] == trim(ls[j]));
        assert(is_decl(all[i]));
    }
    if ds.len() < 8 {
        assert(ds == all);
        assert forall|j: int| 0 <= j < ls.len() && declaration_opening(trim(#[trigger] ls[j])) implies exists|
            i: int,
        | 0 <= i < ds.len() && ds[i] == trim(ls[j]) by {
            assert(is_decl(trim(ls[j])));
        }
    }
}

/// Law: a path is skipped by the index exactly when it contains `/` plus
/// one of node_modules, .git, target, dist, build, .next, .nuxt, vendor,
/// .tox, __pycache__, .venv, venv, .ctx, coverage, .terraform, or ends with
/// one of .min.js, .min.css, .map, .svg, .png, .jpg, .jpeg, .gif, .ico,
/// .woff, .woff2, .ttf, .eot, .mp4, .mp3, .wasm, .lock.
pub proof fn law_ignored_paths(p: Seq<char>)
    ensures
        ignored_path(p) <==> {
            ||| contains(p, seq!['/'] + "node_modules"@) ||| contains(p, seq!['/'] + ".git"@)
            ||| contains(p, seq!['/'] + "target"@) ||| contains(p, seq!['/'] + "dist"@)
            ||| contains(p, seq!['/'] + "build"@) ||| contains(p, seq!['/'] + ".next"@)
            ||| contains(p, seq!['/'] + ".nuxt"@) ||| contains(p, seq!['/'] + "vendor"@)
            ||| contains(p, seq!['/'] + ".tox"@) ||| contains(p, seq!['/'] + "__pycache__"@)
            ||| contains(p, seq!['/'] + ".venv"@) ||| contains(p, seq!['/'] + "venv"@)
            ||| contains(p, seq!['/'] + ".ctx"@) ||| contains(p, seq!['/'] + "coverage"@)
            ||| contains(p, seq!['/'] + ".terraform"@)
            ||| ends_with(p, ".min.js"@) ||| ends_with(p, ".min.css"@) ||| ends_with(p, ".map"@)
            ||| ends_with(p, ".svg"@) ||| ends_with(p, ".png"@) ||| ends_with(p, ".jpg"@)
            ||| ends_with(p, ".jpeg"@) ||| ends_with(p, ".gif"@) ||| ends_with(p, ".ico"@)
            ||| ends_with(p, ".woff"@) ||| ends_with(p, ".woff2"@) ||| ends_with(p, ".ttf"@)
            ||| ends_with(p, ".eot"@) ||| ends_with(p, ".mp4"@) ||| ends_with(p, ".mp3"@)
            ||| ends_with(p, ".wasm"@) ||| ends_with(p, ".lock"@)
        },
{
    assert forall|d: Seq<char>| #[trigger] dir_hit(p, d) <==> contains(p, seq!['/'] + d) by {
        if contains(p, seq!['/'] + d + seq!['/']) {
            let k = choose|k: int| #[trigger] occurs_at(p, seq!['/'] + d + seq!['/'], k);
            let q = seq!['/'] + d;
            assert(p.subrange(k, k + q.len()) =~= (seq!['/'] + d + seq!['/']).take(q.len() as int));
            assert((seq!['/'] + d + seq!['/']).take(q.len() as int) =~= q);
            assert(occurs_at(p, q, k));
        }
    }
}


/// Law: the token estimate of a file is its byte length divided by four,
/// rounded up.
pub proof fn law_token_estimate(byte_len: nat)
    ensures
        byte_len <= 4 * token_estimate(byte_len) < byte_len + 4,
{
}

/// Law: what a head line gives the summary. A line starting `#!/` is kept
/// as it is; a line starting `//`, `#`, `/*` or `--` is kept without its
/// leading run of `/`, `#`, `-`, `*` and spaces; any other line gives
/// nothing.
pub proof fn law_header_part(t: Seq<char>)
    ensures
        starts_with(t, "#!/"@) ==> header_part(t) == Some(t),
        !starts_with(t, "#!/"@) && (starts_with(t, "//"@) || starts_with(t, "#"@) || starts_with(
            t,
            "/*"@,
        ) || starts_with(t, "--"@)) ==> (header_part(t) matches Some(h) && {
            let k = t.len() - h.len();
            &&& 0 <= k <= t.len()
            &&& h == t.skip(k)
            &&& forall|m: int|
                0 <= m < k ==> (t[m] == '/' || t[m] == '#' || t[m] == '-' || t[m] == '*' || t[m] == ' ')
            &&& h.len() == 0 || !(h[0] == '/' || h[0] == '#' || h[0] == '-' || h[0] == '*' || h[0]
                == ' ')
        }),
        !(starts_with(t, "#!/"@) || starts_with(t, "//"@) || starts_with(t, "#"@) || starts_with(
            t,
            "/*"@,
        ) || starts_with(t, "--"@)) ==> header_part(t) is None,
{
    lemma_trim_comment_marks(t);
}

proof fn lemma_trim_comment_marks(t: Seq<char>)
    ensures
        ({
            let h = trim_comment_marks(t);
            let k = t.len() - h.len();
            &&& 0 <= k <= t.len()
            &&& h == t.skip(k)
            &&& forall|m: int|
                0 <= m < k ==> (t[m] == '/' || t[m] == '#' || t[m] == '-' || t[m] == '*' || t[m] == ' ')
            &&& h.len() == 0 || !(h[0] == '/' || h[0] == '#' || h[0] == '-' || h[0] == '*' || h[0]
                == ' ')
        }),
    decreases t.len(),
{
    if t.len() > 0 && is_comment_mark(t[0]) {
        let d = t.drop_first();
        lemma_trim_comment_marks(d);
        let h = trim_comment_marks(d);
        let k = t.len() - h.len();
        assert(d.skip(d.len() - h.len()) =~= t.skip(k));
        assert forall|m: int| 0 <= m < k implies (t[m] == '/' || t[m] == '#' || t[m] == '-' || t[m] == '*'
            || t[m] == ' ') by {
            if m > 0 {
                assert(t[m] == d[m - 1]);
            }
        }
    } else {
        assert(t.skip(0) =~= t);
    }
}

} // verus!
