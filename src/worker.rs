//! Decisions of the enrichment worker. The caller performs each action on
//! the store and reports back what happened.
use vstd::prelude::*;

use crate::models::Bookmark;
use crate::tagging::{
    rescale_for_llm, rescaled, rule_suggestions, suggestion_view, TagSuggestion, TaggingRules,
};

verus! {

/// What the worker's loop does next.
#[derive(Clone, Copy, Debug, PartialEq, Eq, Structural)]
pub enum LoopAction {
    /// Fetch the next batch of pending jobs, oldest first.
    Fetch,
    /// Process the fetched jobs one by one.
    Process,
    /// Wait one poll interval, then fetch.
    Sleep,
    /// End the loop.
    Stop,
}

/// After a fetch: an empty batch ends a single pass and otherwise waits; a
/// batch with jobs is processed.
pub fn after_fetch(fetched: usize, once: bool) -> (r: LoopAction)
    ensures
        fetched > 0 ==> r == LoopAction::Process,
        fetched == 0 && once ==> r == LoopAction::Stop,
        fetched == 0 && !once ==> r == LoopAction::Sleep,
{
    if fetched > 0 {
        LoopAction::Process
    } else if once {
        LoopAction::Stop
    } else {
        LoopAction::Sleep
    }
}

/// After a batch: a single pass ends, a continuous run fetches again.
pub fn after_batch(once: bool) -> (r: LoopAction)
    ensures
        r == (if once {
            LoopAction::Stop
        } else {
            LoopAction::Fetch
        }),
{
    if once {
        LoopAction::Stop
    } else {
        LoopAction::Fetch
    }
}

/// What to do with a claimed job once its bookmark has been looked up.
#[derive(Clone, Debug, PartialEq, Eq)]
pub enum JobPlan {
    /// The bookmark is gone: mark the job failed.
    MarkFailed,
    /// Store these suggestions for the bookmark, then mark the job done.
    Upsert(Vec<TagSuggestion>),
}

/// Suggestions as the second stage stores them for a bookmark.
pub open spec fn enrichment_of(url: Seq<char>, title: Seq<char>) -> Seq<
    (Seq<char>, u32, crate::tagging::TagSource),
> {
    rule_suggestions(url, title).map_values(
        |s: (Seq<char>, u32, crate::tagging::TagSource)| rescaled(s),
    )
}

/// Plans a claimed job: a missing bookmark fails it; otherwise the rule
/// suggestions for its URL and title, rescaled, are to be stored.
pub fn plan_job(rules: &TaggingRules, bookmark: Option<&Bookmark>) -> (r: JobPlan)
    requires
        rules.wf(),
    ensures
        bookmark is None <==> r is MarkFailed,
        bookmark matches Some(b) ==> (r matches JobPlan::Upsert(s) && s@.map_values(
            |t: TagSuggestion| suggestion_view(t),
        ) == enrichment_of(b.url@, b.title@)),
{
    match bookmark {
        None => JobPlan::MarkFailed,
        Some(b) => {
            let found = rules.suggest(b.url.as_str(), b.title.as_str());
            let ghost fv = found@.map_values(|t: TagSuggestion| suggestion_view(t));
            proof {
                crate::tagging::lemma_rule_confidences(b.url@, b.title@);
                assert forall|k: int| 0 <= k < found.len() implies found@[k].confidence <= 1000 by {
                    assert(fv[k] == rule_suggestions(b.url@, b.title@)[k]);
                }
            }
            let s = rescale_for_llm(found);
            proof {
                assert(s@.map_values(|t: TagSuggestion| suggestion_view(t)) =~= enrichment_of(
                    b.url@,
                    b.title@,
                ));
            }
            JobPlan::Upsert(s)
        },
    }
}

} // verus!
