//! The acceptance rule of speculative decoding: the draft model proposes
//! tokens, the main model samples its own token at each draft position, and
//! drafts are accepted up to the first disagreement.
use vstd::prelude::*;
use crate::model::{can_truncate, truncate_cache, truncated_cache, KVCache};

verus! {

/// What the verification of a draft asks for next.
#[derive(Debug, Clone, PartialEq, Eq)]
pub enum DraftStep {
    /// Sample the main model's token for this position of the draft (the
    /// position after the last draft token gives a bonus token).
    Sample(usize),
    /// The round is over: commit these tokens, of which this many were
    /// accepted drafts.
    Commit(Vec<usize>, usize),
}

/// The first position where the main model's tokens and the draft differ.
pub open spec fn first_mismatch(draft: Seq<usize>, targets: Seq<usize>, j: int) -> bool {
    &&& 0 <= j < draft.len()
    &&& j < targets.len()
    &&& targets[j] != draft[j]
    &&& forall|i: int| 0 <= i < j ==> targets[i] == draft[i]
}

/// The main model's tokens agree with the draft so far.
pub open spec fn agrees_so_far(draft: Seq<usize>, targets: Seq<usize>) -> bool {
    forall|i: int| 0 <= i < targets.len() && i < draft.len() ==> targets[i] == draft[i]
}

/// Decides the next step of verifying `draft`, given the main model's
/// tokens sampled so far for its positions (`targets[j]` for position `j`,
/// and `targets[draft.len()]` for the bonus position).
///
/// At the first disagreement the accepted drafts and the main model's
/// correction are committed; if every draft agrees, the bonus token is
/// sampled and committed after them; otherwise the next position is
/// sampled.
pub fn draft_step(draft: &Vec<usize>, targets: &Vec<usize>) -> (step: DraftStep)
    ensures
        match step {
            DraftStep::Sample(j) => {
                &&& agrees_so_far(draft@, targets@)
                &&& targets.len() <= draft.len()
                &&& j == targets.len()
            },
            DraftStep::Commit(tokens, accepted) => {
                ||| first_mismatch(draft@, targets@, accepted as int) && tokens@ == draft@.take(
                    accepted as int,
                ).push(targets@[accepted as int])
                ||| {
                    &&& agrees_so_far(draft@, targets@)
                    &&& targets.len() > draft.len()
                    &&& accepted == draft.len()
                    &&& tokens@ == draft@.push(targets@[draft.len() as int])
                }
            },
        },
{
    let k = draft.len();
    let mut j: usize = 0;
    while j < k && j < targets.len()
        invariant
            k == draft.len(),
            j <= k,
            j <= targets.len(),
            forall|i: int| 0 <= i < j ==> targets@[i] == draft@[i],
        decreases k - j,
    {
        if targets[j] != draft[j] {
            let mut tokens: Vec<usize> = Vec::new();
            for i in 0..j
                invariant
                    j < k,
                    k == draft.len(),
                    tokens@ == draft@.take(i as int),
            {
                tokens.push(draft[i]);
                assert(tokens@ =~= draft@.take(i + 1));
            }
            tokens.push(targets[j]);
            return DraftStep::Commit(tokens, j);
        }
        j = j + 1;
    }
    if targets.len() <= k {
        DraftStep::Sample(targets.len())
    } else {
        let mut tokens: Vec<usize> = Vec::new();
        for i in 0..k
            invariant
                k == draft.len(),
                tokens@ == draft@.take(i as int),
        {
            tokens.push(draft[i]);
            assert(tokens@ =~= draft@.take(i + 1));
        }
        assert(draft@.take(k as int) =~= draft@);
        tokens.push(targets[k]);
        DraftStep::Commit(tokens, k)
    }
}

/// Speculative decoding commits exactly what the main model sampled: the
/// committed tokens are the main model's tokens for the accepted positions
/// and the one after them.
pub proof fn lemma_commit_is_main_choice(draft: Seq<usize>, targets: Seq<usize>, tokens: Seq<usize>, accepted: int)
    requires
        first_mismatch(draft, targets, accepted) && tokens == draft.take(accepted).push(targets[accepted])
            || (agrees_so_far(draft, targets) && targets.len() > draft.len() && accepted == draft.len()
            && tokens == draft.push(targets[draft.len() as int])),
    ensures
        tokens == targets.take(accepted + 1),
{
    assert(tokens =~= targets.take(accepted + 1));
}

/// What a cache becomes when cut to `target` positions.
pub open spec fn cut_to<T>(old: Option<KVCache<T>>, new: Option<KVCache<T>>, target: int) -> bool {
    match old {
        None => new.is_none(),
        Some(c) => new matches Some(n) && truncated_cache(c, n, target),
    }
}

/// The cache can be cut to `target` positions.
pub open spec fn cache_can_cut<T>(c: Option<KVCache<T>>, target: int) -> bool {
    c matches Some(k) ==> can_truncate(k, target)
}

/// Ends a round of speculative decoding: the committed tokens join the
/// text, and both caches are cut back to all of its tokens but the last,
/// which the next round feeds again. Gives the number of cached positions.
pub fn commit_round<T>(
    tokens: &mut Vec<usize>,
    committed: &Vec<usize>,
    draft_cache: &mut Option<KVCache<T>>,
    main_cache: &mut Option<KVCache<T>>,
) -> (cached: usize)
    requires
        old(tokens).len() + committed.len() >= 1,
        old(tokens).len() + committed.len() <= usize::MAX,
        cache_can_cut(*old(draft_cache), old(tokens).len() + committed.len() - 1),
        cache_can_cut(*old(main_cache), old(tokens).len() + committed.len() - 1),
    ensures
        final(tokens)@ == old(tokens)@ + committed@,
        cached == final(tokens).len() - 1,
        cut_to(*old(draft_cache), *final(draft_cache), cached as int),
        cut_to(*old(main_cache), *final(main_cache), cached as int),
{
    let ghost start = tokens@;
    for i in 0..committed.len()
        invariant
            start.len() + committed.len() <= usize::MAX,
            tokens@ == start + committed@.take(i as int),
    {
        tokens.push(committed[i]);
        assert(tokens@ =~= start + committed@.take(i + 1));
    }
    assert(committed@.take(committed.len() as int) =~= committed@);
    let cached = tokens.len() - 1;
    truncate_cache(draft_cache, cached);
    truncate_cache(main_cache, cached);
    cached
}

} // verus!
