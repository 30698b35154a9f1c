//! The placeholder strategy.

use vstd::prelude::*;

use crate::{
    chain_holds, history_entry, play_outcome, GameError, Guess, Guesser, PlayTrace, StrategyError,
};

verus! {

/// A strategy without a decision procedure: it signals `NotImplemented` on
/// every round instead of leaving its answer ambiguous.
pub struct Naive;

impl Guesser for Naive {
    /// On every history the placeholder deterministically refuses: the
    /// response is the not-implemented signal, never a word.
    open spec fn resp(
        &self,
        history: Seq<Guess>,
        r: Result<String, StrategyError>,
        post: Naive,
    ) -> bool {
        r == Err::<String, StrategyError>(StrategyError::NotImplemented)
    }

    fn guess(&mut self, _history: &[Guess]) -> (r: Result<String, StrategyError>)
        ensures
            r == Err::<String, StrategyError>(StrategyError::NotImplemented),
    {
        Err(StrategyError::NotImplemented)
    }
}

impl Naive {
    /// A fresh placeholder strategy.
    pub fn new() -> (n: Naive)
        ensures
            n == (Naive),
    {
        Naive
    }
}

/// The placeholder ends every game at once: driving it with the engine
/// reports the not-implemented failure after a single round, whatever the
/// answer and dictionary.
pub proof fn lemma_placeholder_fails_fast(
    dict: Set<Seq<char>>,
    answer: Seq<char>,
    tr: PlayTrace<Naive>,
    r: Result<Option<usize>, GameError>,
)
    requires
        play_outcome(dict, answer, tr, r),
    ensures
        r == Err::<Option<usize>, GameError>(GameError::Strategy(StrategyError::NotImplemented)),
        tr.resps.len() == 1,
{
    if tr.history.len() >= 1 {
        assert(chain_holds(tr.states, tr.resps, tr.history, 0));
        assert(history_entry(dict, answer, tr.resps[0], tr.history[0]));
        assert(false);
    }
    let last = tr.resps.len() - 1;
    assert(chain_holds(tr.states, tr.resps, tr.history, last));
}

} // verus!
