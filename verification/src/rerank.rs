//! The AI reranker's deterministic parts: its settings, the prompt it
//! sends, how a fenced JSON answer is found, and how verdicts reorder the
//! candidates.

use vstd::prelude::*;
use vstd::string::StringSliceAdditionalSpecFns;

use crate::config::{opt_view, Config};
use crate::signal::{descending, law_sort_by_score, sort_by_score, RelevanceEngine, ScoredFile};
use crate::text::{
    append_chars, chars_are, chars_of, contains, decimal, decimal_chars, find, first_occurrence,
    occurs_at, slice_copy,
    string_of, trim, trimmed, utf8_len,
};
use crate::tree::prefix_within;

verus! {

broadcast use vstd::string::group_string_axioms;

/// The reranker's settings: the OpenAI key and chat model it calls with.
pub struct Reranker {
    pub openai_key: Option<String>,
    pub model: String,
}

/// One verdict of the model: a path, its relevance label and a reason.
pub struct RankedFile {
    pub path: String,
    pub relevance: String,
    pub reason: String,
}

/// What `rerank` does before any request: nothing to rank, keep the
/// candidates as they are, or ask the model about the first `n`.
pub enum RerankPlan {
    Empty,
    Unchanged,
    Ask(usize),
}

/// Most candidates shown to the model.
pub const MAX_RERANK_CANDIDATES: usize = 30;

/// The instructions sent as the system message of a rerank request.
pub open spec fn system_prompt_text() -> Seq<char> {
    "You are an expert software engineer and architect. Your job is to select files from a codebase that are RELEVANT to completing a given task. Be ruthless — only include files the developer MUST look at or modify. Omit test files, config files, and helpers unless they are directly relevant. Return your answer as a JSON object with a 'ranked' array of objects, each with 'path' (the file path), 'relevance' (CRITICAL|HIGH|MEDIUM|LOW|SKIP), and 'reason' (one sentence why)."@
}

/// A candidate's summary as shown in the prompt: cut to 200 bytes with
/// `...` appended when longer.
pub open spec fn summary_preview(summary: Seq<char>) -> Seq<char> {
    if utf8_len(summary) > 200 {
        prefix_within(summary, 200) + "..."@
    } else {
        summary
    }
}

/// `s` with each `\n` replaced by a space.
pub open spec fn newlines_to_spaces(s: Seq<char>) -> Seq<char> {
    s.map_values(|c: char| if c == '\n' { ' ' } else { c })
}

/// The prompt line of the candidate at (0-based) position `i`.
pub open spec fn candidate_line(i: nat, f: ScoredFile) -> Seq<char> {
    decimal(i + 1) + ". `"@ + f.path@ + "` ["@ + f.language@ + "] — "@ + trim(
        newlines_to_spaces(summary_preview(f.summary@)),
    ) + "\n"@
}

pub open spec fn candidate_lines(fs: Seq<ScoredFile>) -> Seq<char>
    decreases fs.len(),
{
    if fs.len() == 0 {
        seq![]
    } else {
        candidate_lines(fs.drop_last()) + candidate_line((fs.len() - 1) as nat, fs.last())
    }
}

/// The user prompt sent with the candidates.
pub open spec fn user_prompt(repo: Seq<char>, task: Seq<char>, fs: Seq<ScoredFile>) -> Seq<char> {
    "Repository: `"@ + repo + "`\n\nTask: "@ + task + "\n\nCandidate files:\n"@ + candidate_lines(
        fs,
    )
}

/// Every preview can be cut at 200 bytes on a character boundary.
pub open spec fn previews_cut_cleanly(fs: Seq<ScoredFile>) -> bool {
    forall|i: int| 0 <= i < fs.len() ==> crate::tree::cuts_cleanly(#[trigger] fs[i].summary@, 200)
}

/// The JSON inside a ```` ```json ```` fence: the text after the first
/// ```` ```json ```` up to the next ```` ``` ````.
pub open spec fn fenced_json(content: Seq<char>) -> Option<Seq<char>> {
    if contains(content, "```json"@) {
        let rest = content.skip(first_occurrence(content, "```json"@) + 7);
        if contains(rest, "```"@) {
            Some(rest.take(first_occurrence(rest, "```"@)))
        } else {
            None
        }
    } else {
        None
    }
}

/// The relevance label the verdicts give `path` (the last verdict for it).
pub open spec fn verdict_for(ranked: Seq<RankedFile>, path: Seq<char>) -> Option<Seq<char>>
    decreases ranked.len(),
{
    if ranked.len() == 0 {
        None
    } else if ranked.last().path@ == path {
        Some(ranked.last().relevance@)
    } else {
        verdict_for(ranked.drop_last(), path)
    }
}

/// The score a label assigns, if it assigns one: the order keys of the
/// `f32` values 1.0, 0.9 and 0.6.
pub open spec fn label_score(label: Seq<char>) -> Option<i64> {
    if label == "CRITICAL"@ {
        Some(1065353216)
    } else if label == "HIGH"@ {
        Some(1063675494)
    } else if label == "MEDIUM"@ {
        Some(1058642330)
    } else {
        None
    }
}

/// A candidate after the verdicts: dropped when labelled SKIP, rescored
/// when labelled CRITICAL, HIGH or MEDIUM, otherwise unchanged.
pub open spec fn after_verdict(ranked: Seq<RankedFile>, f: ScoredFile) -> Option<ScoredFile> {
    match verdict_for(ranked, f.path@) {
        Some(label) => if label == "SKIP"@ {
            None
        } else {
            match label_score(label) {
                Some(s) => Some(ScoredFile { score: s, ..f }),
                None => Some(f),
            }
        },
        None => Some(f),
    }
}

pub open spec fn apply_verdicts(ranked: Seq<RankedFile>, fs: Seq<ScoredFile>) -> Seq<ScoredFile>
    decreases fs.len(),
{
    if fs.len() == 0 {
        seq![]
    } else {
        let prev = apply_verdicts(ranked, fs.drop_last());
        match after_verdict(ranked, fs.last()) {
            Some(f) => prev.push(f),
            None => prev,
        }
    }
}

/// A copy of a scored file.
pub fn copy_scored(f: &ScoredFile) -> (r: ScoredFile)
    ensures
        r == *f,
{
    ScoredFile {
        path: f.path.clone(),
        summary: f.summary.clone(),
        token_count: f.token_count,
        language: f.language.clone(),
        score: f.score,
        semantic_score: f.semantic_score,
        dependency_score: f.dependency_score,
        history_score: f.history_score,
        lexical_score: f.lexical_score,
    }
}

/// Copies of the first `n` scored files.
pub fn copy_prefix(fs: &[ScoredFile], n: usize) -> (r: Vec<ScoredFile>)
    requires
        n <= fs@.len(),
    ensures
        r@ == fs@.take(n as int),
{
    let mut out: Vec<ScoredFile> = Vec::new();
    let mut i: usize = 0;
    while i < n
        invariant
            i <= n <= fs@.len(),
            out@ == fs@.take(i as int),
        decreases n - i,
    {
        out.push(copy_scored(&fs[i]));
        i += 1;
        proof {
            assert(out@ =~= fs@.take(i as int));
        }
    }
    out
}

fn newlines_to_spaces_exec(v: &[char]) -> (r: Vec<char>)
    ensures
        r@ == newlines_to_spaces(v@),
{
    let mut out: Vec<char> = Vec::new();
    let mut i: usize = 0;
    while i < v.len()
        invariant
            i <= v@.len(),
            out@ == newlines_to_spaces(v@.take(i as int)),
        decreases v.len() - i,
    {
        if v[i] == '\n' {
            out.push(' ');
        } else {
            out.push(v[i]);
        }
        i += 1;
        proof {
            assert(out@ =~= newlines_to_spaces(v@.take(i as int)));
        }
    }
    proof {
        assert(v@.take(v@.len() as int) =~= v@);
    }
    out
}

impl Reranker {
    /// The reranker's settings for a configuration.
    pub fn new(config: &Config) -> (r: Self)
        ensures
            opt_view(r.openai_key) == config@.openai_key,
            r.model@ == match config@.reranker_model {
                Some(m) => m,
                None => "gpt-4o-mini"@,
            },
    {
        let model = match &config.reranker_model {
            Some(m) => m.clone(),
            None => string_of(&chars_of("gpt-4o-mini")),
        };
        let openai_key = match &config.openai_key {
            Some(k) => Some(k.clone()),
            None => None,
        };
        Reranker { openai_key, model }
    }

    /// What reranking `n_candidates` candidates takes: nothing for none,
    /// the candidates as they are without a client and key, otherwise a
    /// request about the first thirty.
    pub fn plan(&self, n_candidates: usize, has_client: bool) -> (r: RerankPlan)
        ensures
            n_candidates == 0 ==> r is Empty,
            n_candidates > 0 && !(has_client && self.openai_key is Some) ==> r is Unchanged,
            n_candidates > 0 && has_client && self.openai_key is Some ==> r == RerankPlan::Ask(
                if n_candidates < MAX_RERANK_CANDIDATES {
                    n_candidates
                } else {
                    MAX_RERANK_CANDIDATES
                },
            ),
    {
        if n_candidates == 0 {
            return RerankPlan::Empty;
        }
        if !has_client || self.openai_key.is_none() {
            return RerankPlan::Unchanged;
        }
        RerankPlan::Ask(
            if n_candidates < MAX_RERANK_CANDIDATES {
                n_candidates
            } else {
                MAX_RERANK_CANDIDATES
            },
        )
    }

    /// The system prompt of a rerank request.
    pub fn system_prompt() -> (r: &'static str)
        ensures
            r@ == system_prompt_text(),
    {
        "You are an expert software engineer and architect. Your job is to select files from a codebase that are RELEVANT to completing a given task. Be ruthless — only include files the developer MUST look at or modify. Omit test files, config files, and helpers unless they are directly relevant. Return your answer as a JSON object with a 'ranked' array of objects, each with 'path' (the file path), 'relevance' (CRITICAL|HIGH|MEDIUM|LOW|SKIP), and 'reason' (one sentence why)."
    }

    /// Whether every candidate's preview can be cut at 200 bytes without
    /// splitting a character.
    pub fn previews_are_cuttable(candidates: &[ScoredFile]) -> (r: bool)
        ensures
            r == previews_cut_cleanly(candidates@),
    {
        let mut i: usize = 0;
        while i < candidates.len()
            invariant
                i <= candidates@.len(),
                forall|j: int|
                    0 <= j < i ==> crate::tree::cuts_cleanly(#[trigger] candidates@[j].summary@, 200),
            decreases candidates.len() - i,
        {
            let summary = chars_of(candidates[i].summary.as_str());
            let p = crate::tree::prefix_within_bytes(&summary, 200);
            proof {
                crate::tree::lemma_prefix_within_len(summary@, 200);
            }
            let ok = crate::tree::utf8_at_most(&summary, 200) || !crate::tree::utf8_at_most(&p, 199);
            if !ok {
                assert(!crate::tree::cuts_cleanly(candidates@[i as int].summary@, 200));
                return false;
            }
            i += 1;
        }
        true
    }

    /// The user prompt listing the candidates.
    pub fn user_prompt(repo_name: &str, task: &str, candidates: &[ScoredFile]) -> (r: String)
        requires
            previews_cut_cleanly(candidates@),
            candidates@.len() < u64::MAX,
        ensures
            r@ == user_prompt(repo_name@, task@, candidates@),
    {
        let mut out: Vec<char> = Vec::new();
        append_chars(&mut out, &chars_of("Repository: `"));
        append_chars(&mut out, &chars_of(repo_name));
        append_chars(&mut out, &chars_of("`\n\nTask: "));
        append_chars(&mut out, &chars_of(task));
        append_chars(&mut out, &chars_of("\n\nCandidate files:\n"));
        let ghost head = out@;
        let mut i: usize = 0;
        proof {
            assert(candidates@.take(0) =~= Seq::<ScoredFile>::empty());
        }
        while i < candidates.len()
            invariant
                i <= candidates@.len() < u64::MAX,
                previews_cut_cleanly(candidates@),
                out@ == head + candidate_lines(candidates@.take(i as int)),
            decreases candidates.len() - i,
        {
            let f = &candidates[i];
            let summary = chars_of(f.summary.as_str());
            let preview: Vec<char> = if !crate::tree::utf8_at_most(&summary, 200) {
                let mut p = crate::tree::prefix_within_bytes(&summary, 200);
                append_chars(&mut p, &chars_of("..."));
                p
            } else {
                summary
            };
            let ghost before = out@;
            append_chars(&mut out, &decimal_chars((i + 1) as u64));
            append_chars(&mut out, &chars_of(". `"));
            append_chars(&mut out, &chars_of(f.path.as_str()));
            append_chars(&mut out, &chars_of("` ["));
            append_chars(&mut out, &chars_of(f.language.as_str()));
            append_chars(&mut out, &chars_of("] — "));
            append_chars(&mut out, &trimmed(&newlines_to_spaces_exec(&preview)));
            append_chars(&mut out, &chars_of("\n"));
            proof {
                assert(out@ =~= before + candidate_line(i as nat, candidates@[i as int]));
                let t = candidates@.take(i + 1);
                assert(t.drop_last() =~= candidates@.take(i as int));
                assert(t.last() == candidates@[i as int]);
            }
            i += 1;
        }
        proof {
            assert(candidates@.take(candidates@.len() as int) =~= candidates@);
        }
        string_of(&out)
    }

    /// The JSON of an answer wrapped in a ```` ```json ```` fence, if any.
    pub fn fenced_json(content: &str) -> (r: Option<String>)
        ensures
            opt_view(r) == fenced_json(content@),
    {
        let c = chars_of(content);
        let fence = chars_of("```json");
        let start = match find(&c, &fence) {
            Some(s) => s,
            None => return None,
        };
        proof {
            reveal_strlit("```json");
            assert(fence@.len() == 7);
            assert(occurs_at(c@, fence@, start as int));
            assert(start + 7 <= c@.len());
        }
        let n = c.len();
        let rest = slice_copy(&c, start + 7, n);
        proof {
            assert(rest@ =~= content@.skip(start + 7));
        }
        let end = match find(&rest, &chars_of("```")) {
            Some(e) => e,
            None => return None,
        };
        let json = slice_copy(&rest, 0, end);
        assert(json@ =~= rest@.take(end as int));
        Some(string_of(&json))
    }

    /// The verdict label for `path`: the last verdict naming it.
    fn verdict<'a>(ranked: &'a [RankedFile], path: &str) -> (r: Option<&'a String>)
        ensures
            match r {
                Some(l) => verdict_for(ranked@, path@) == Some(l@),
                None => verdict_for(ranked@, path@) is None,
            },
    {
        let p = chars_of(path);
        let mut i: usize = ranked.len();
        proof {
            assert(ranked@.take(ranked@.len() as int) =~= ranked@);
        }
        while i > 0
            invariant
                i <= ranked@.len(),
                p@ == path@,
                verdict_for(ranked@, path@) == verdict_for(ranked@.take(i as int), path@),
            decreases i,
        {
            proof {
                let t = ranked@.take(i as int);
                assert(t.drop_last() =~= ranked@.take(i - 1));
                assert(t.last() == ranked@[i - 1]);
            }
            if chars_are(&chars_of(ranked[i - 1].path.as_str()), path) {
                return Some(&ranked[i - 1].relevance);
            }
            i -= 1;
        }
        None
    }

    /// Apply the model's verdicts to the candidates: SKIP drops a file,
    /// CRITICAL / HIGH / MEDIUM set its score to 1.0 / 0.9 / 0.6, anything
    /// else keeps it; the result is ranked by score.
    pub fn apply_rerank(candidates: &[ScoredFile], ranked: &[RankedFile]) -> (r: Vec<ScoredFile>)
        ensures
            r@ == sort_by_score(apply_verdicts(ranked@, candidates@)),
    {
        let mut kept: Vec<ScoredFile> = Vec::new();
        let mut i: usize = 0;
        while i < candidates.len()
            invariant
                i <= candidates@.len(),
                kept@ == apply_verdicts(ranked@, candidates@.take(i as int)),
            decreases candidates.len() - i,
        {
            let f = &candidates[i];
            proof {
                let t = candidates@.take(i + 1);
                assert(t.drop_last() =~= candidates@.take(i as int));
                assert(t.last() == candidates@[i as int]);
            }
            match Self::verdict(ranked, f.path.as_str()) {
                Some(label) => {
                    let l = chars_of(label.as_str());
                    if chars_are(&l, "SKIP") {
                    } else {
                        let mut f2 = copy_scored(f);
                        if chars_are(&l, "CRITICAL") {
                            f2.score = 1065353216;
                        } else if chars_are(&l, "HIGH") {
                            f2.score = 1063675494;
                        } else if chars_are(&l, "MEDIUM") {
                            f2.score = 1058642330;
                        }
                        kept.push(f2);
                    }
                },
                None => {
                    kept.push(copy_scored(f));
                },
            }
            i += 1;
        }
        proof {
            assert(candidates@.take(candidates@.len() as int) =~= candidates@);
        }
        RelevanceEngine::rank(kept)
    }
}


/// A candidate that survives the verdicts: not labelled SKIP, and its path
/// is one of the candidates' paths.
pub open spec fn survives(ranked: Seq<RankedFile>, fs: Seq<ScoredFile>, f: ScoredFile) -> bool {
    &&& verdict_for(ranked, f.path@) != Some("SKIP"@)
    &&& exists|j: int| 0 <= j < fs.len() && #[trigger] fs[j].path == f.path
}

proof fn lemma_apply_verdicts_survive(ranked: Seq<RankedFile>, fs: Seq<ScoredFile>)
    ensures
        apply_verdicts(ranked, fs).len() <= fs.len(),
        forall|i: int|
            0 <= i < apply_verdicts(ranked, fs).len() ==> survives(
                ranked,
                fs,
                #[trigger] apply_verdicts(ranked, fs)[i],
            ),
    decreases fs.len(),
{
    if fs.len() > 0 {
        let d = fs.drop_last();
        lemma_apply_verdicts_survive(ranked, d);
        let prev = apply_verdicts(ranked, d);
        let out = apply_verdicts(ranked, fs);
        assert forall|i: int| 0 <= i < out.len() implies survives(ranked, fs, #[trigger] out[i]) by {
            if i < prev.len() {
                assert(out[i] == prev[i]);
                assert(survives(ranked, d, prev[i]));
                let j = choose|j: int| 0 <= j < d.len() && #[trigger] d[j].path == prev[i].path;
                assert(fs[j] == d[j]);
            } else {
                let last = fs.last();
                assert(fs[fs.len() - 1] == last);
                assert(out[i].path == last.path);
            }
        }
    }
}

/// Law: after reranking, the files come in descending score order, no more
/// of them than there were candidates, none labelled SKIP by the model, and
/// each is one of the candidates.
pub proof fn law_rerank_drops_skipped(ranked: Seq<RankedFile>, fs: Seq<ScoredFile>)
    ensures
        descending(sort_by_score(apply_verdicts(ranked, fs))),
        sort_by_score(apply_verdicts(ranked, fs)).len() <= fs.len(),
        forall|i: int|
            0 <= i < sort_by_score(apply_verdicts(ranked, fs)).len() ==> survives(
                ranked,
                fs,
                #[trigger] sort_by_score(apply_verdicts(ranked, fs))[i],
            ),
{
    broadcast use vstd::seq_lib::group_to_multiset_ensures;

    let a = apply_verdicts(ranked, fs);
    let out = sort_by_score(a);
    lemma_apply_verdicts_survive(ranked, fs);
    law_sort_by_score(a);
    assert forall|i: int| 0 <= i < out.len() implies survives(ranked, fs, #[trigger] out[i]) by {
        assert(out.contains(out[i]));
        assert(out.to_multiset().count(out[i]) > 0);
        assert(a.contains(out[i]));
        let k = choose|k: int| 0 <= k < a.len() && a[k] == out[i];
        assert(survives(ranked, fs, a[k]));
    }
}


/// Law: what a verdict does to a candidate. SKIP drops it; CRITICAL, HIGH
/// and MEDIUM give it the score whose order key is 1065353216, 1063675494
/// and 1058642330 (the `f32` values 1.0, 0.9 and 0.6), keeping everything
/// else; any other label, or no verdict, leaves it as it is.
pub proof fn law_verdict_effect(ranked: Seq<RankedFile>, f: ScoredFile)
    ensures
        verdict_for(ranked, f.path@) == Some("SKIP"@) ==> after_verdict(ranked, f) is None,
        verdict_for(ranked, f.path@) == Some("CRITICAL"@) ==> after_verdict(ranked, f) == Some(
            ScoredFile { score: 1065353216, ..f },
        ),
        verdict_for(ranked, f.path@) == Some("HIGH"@) ==> after_verdict(ranked, f) == Some(
            ScoredFile { score: 1063675494, ..f },
        ),
        verdict_for(ranked, f.path@) == Some("MEDIUM"@) ==> after_verdict(ranked, f) == Some(
            ScoredFile { score: 1058642330, ..f },
        ),
        (verdict_for(ranked, f.path@) matches Some(l) && l != "SKIP"@ && l != "CRITICAL"@ && l
            != "HIGH"@ && l != "MEDIUM"@) || verdict_for(ranked, f.path@) is None ==> after_verdict(
            ranked,
            f,
        ) == Some(f),
{
    reveal_strlit("SKIP");
    assert("SKIP"@.len() == 4);
    assert("SKIP"@[0] == 'S');
    assert("SKIP"@[1] == 'K');
    assert("SKIP"@[2] == 'I');
    reveal_strlit("CRITICAL");
    assert("CRITICAL"@.len() == 8);
    assert("CRITICAL"@[0] == 'C');
    assert("CRITICAL"@[1] == 'R');
    assert("CRITICAL"@[2] == 'I');
    reveal_strlit("HIGH");
    assert("HIGH"@.len() == 4);
    assert("HIGH"@[0] == 'H');
    assert("HIGH"@[1] == 'I');
    assert("HIGH"@[2] == 'G');
    reveal_strlit("MEDIUM");
    assert("MEDIUM"@.len() == 6);
    assert("MEDIUM"@[0] == 'M');
    assert("MEDIUM"@[1] == 'E');
    assert("MEDIUM"@[2] == 'D');
}

/// Law: the verdict for a path is the label of the last verdict that names
/// it, and there is none when no verdict names it.
pub proof fn law_last_verdict_wins(ranked: Seq<RankedFile>, path: Seq<char>)
    ensures
        (forall|i: int| 0 <= i < ranked.len() ==> (#[trigger] ranked[i]).path@ != path) ==> verdict_for(
            ranked,
            path,
        ) is None,
        forall|i: int|
            0 <= i < ranked.len() && (#[trigger] ranked[i]).path@ == path && (forall|k: int|
                i < k < ranked.len() ==> ranked[k].path@ != path) ==> verdict_for(ranked, path) == Some(
                ranked[i].relevance@,
            ),
    decreases ranked.len(),
{
    if ranked.len() > 0 {
        let d = ranked.drop_last();
        law_last_verdict_wins(d, path);
        assert forall|i: int| 0 <= i < d.len() implies #[trigger] d[i] == ranked[i] by {}
        if ranked.last().path@ != path {
            assert forall|i: int|
                0 <= i < ranked.len() && (#[trigger] ranked[i]).path@ == path && (forall|k: int|
                    i < k < ranked.len() ==> ranked[k].path@ != path) implies verdict_for(ranked, path)
                == Some(ranked[i].relevance@) by {
                assert(i < d.len());
                assert(d[i] == ranked[i]);
                assert forall|k: int| i < k < d.len() implies d[k].path@ != path by {
                    assert(d[k] == ranked[k]);
                }
            }
            if forall|i: int| 0 <= i < ranked.len() ==> (#[trigger] ranked[i]).path@ != path {
                assert forall|i: int| 0 <= i < d.len() implies (#[trigger] d[i]).path@ != path by {
                    assert(d[i] == ranked[i]);
                }
            }
        } else {
            assert forall|i: int|
                0 <= i < ranked.len() && (#[trigger] ranked[i]).path@ == path && (forall|k: int|
                    i < k < ranked.len() ==> ranked[k].path@ != path) implies verdict_for(ranked, path)
                == Some(ranked[i].relevance@) by {
                if i < ranked.len() - 1 {
                    assert(ranked[ranked.len() - 1].path@ != path);
                }
            }
            assert(ranked[ranked.len() - 1].path@ == path);
        }
    }
}

} // verus!
