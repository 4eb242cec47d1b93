//! The context compilation pipeline's decisions: whether the AI reranker
//! runs, and how the selected files become the compiled result.

use vstd::prelude::*;

use crate::config::{key_set, Config};
use crate::signal::ScoredFile;
use crate::text::{chars_of, string_of, utf8_len};
use crate::trim::{tokens_for, trimmed_text, Trimmer};

verus! {

broadcast use vstd::string::group_string_axioms;

/// The context compilation pipeline (lexical filter, embedding similarity,
/// dependency and history signals, optional AI reranker).
pub struct Compiler;

/// Whether the reranker runs: it is enabled (the default), some provider
/// key or Codex token is available, and there is more than one file.
pub open spec fn reranks(c: crate::config::ConfigView, oauth_token: bool, n_scored: nat) -> bool {
    let has_key = key_set(c.openai_key) || key_set(c.openrouter_key) || key_set(c.deepseek_key)
        || key_set(c.codex_key) || oauth_token;
    crate::config::unwrap_or(c.use_reranker, true) && has_key && n_scored > 1
}

/// Trimmed tokens of the selected sources that could be read.
pub open spec fn trimmed_total(sources: Seq<Option<String>>) -> nat
    decreases sources.len(),
{
    if sources.len() == 0 {
        0
    } else {
        trimmed_total(sources.drop_last()) + match sources.last() {
            Some(s) => tokens_for(utf8_len(trimmed_text(s@))),
            None => 0,
        }
    }
}

impl Compiler {
    /// Whether the AI reranker runs for `n_scored` scored files.
    pub fn should_rerank(config: &Config, oauth_token: &Option<String>, n_scored: usize) -> (r:
        bool)
        ensures
            r == reranks(config@, oauth_token.is_some(), n_scored as nat),
    {
        let has_key = config.has_openai_key() || config.has_openrouter_key()
            || config.has_deepseek_key() || config.has_codex_key(oauth_token);
        let enabled = match config.use_reranker {
            Some(b) => b,
            None => true,
        };
        enabled && has_key && n_scored > 1
    }

    /// Trimmed tokens of the selected sources that could be read.
    pub fn trimmed_total(sources: &[Option<String>]) -> (r: usize)
        requires
            trimmed_total(sources@) <= usize::MAX,
        ensures
            r == trimmed_total(sources@),
    {
        let mut total: usize = 0;
        let mut i: usize = 0;
        while i < sources.len()
            invariant
                i <= sources@.len(),
                trimmed_total(sources@) <= usize::MAX,
                total == trimmed_total(sources@.take(i as int)),
            decreases sources.len() - i,
        {
            proof {
                assert(sources@.take(i + 1).drop_last() =~= sources@.take(i as int));
                assert(sources@.take(i + 1).last() == sources@[i as int]);
                lemma_trimmed_total_prefix(sources@, i + 1);
            }
            match &sources[i] {
                Some(s) => {
                    let (_t, _orig, after) = match Trimmer::trim(s.as_str(), "") {
                        Ok(x) => x,
                    };
                    total = total + after;
                },
                None => {},
            }
            i += 1;
        }
        proof {
            assert(sources@.take(sources@.len() as int) =~= sources@);
        }
        total
    }

    /// The compiled result: the context pack, the selected files and their
    /// trimmed token total, or a fixed note with no files when nothing was
    /// selected.
    pub fn finish(context: String, selected: Vec<ScoredFile>, total_trimmed: usize) -> (r: (
        String,
        Vec<ScoredFile>,
        usize,
    ))
        ensures
            selected@.len() == 0 ==> r.0@ == "// No relevant files found for the task."@
                && r.1@.len() == 0 && r.2 == 0,
            selected@.len() > 0 ==> r.0 == context && r.1 == selected && r.2 == total_trimmed,
    {
        if selected.len() == 0 {
            (string_of(&chars_of("// No relevant files found for the task.")), Vec::new(), 0)
        } else {
            (context, selected, total_trimmed)
        }
    }
}

proof fn lemma_trimmed_total_prefix(s: Seq<Option<String>>, i: int)
    requires
        0 <= i <= s.len(),
    ensures
        trimmed_total(s.take(i)) <= trimmed_total(s),
    decreases s.len() - i,
{
    if i == s.len() {
        assert(s.take(i) =~= s);
    } else {
        assert(s.drop_last().take(i) =~= s.take(i));
        lemma_trimmed_total_prefix(s.drop_last(), i);
    }
}

} // verus!
