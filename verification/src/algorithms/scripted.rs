//! A fixed-script strategy, mainly for driving the engine in tests.

use vstd::prelude::*;

use crate::{
    lemma_answer_first_wins, play_outcome, GameError, Guess, Guesser, PlayTrace, StrategyError,
};

verus! {

/// A strategy that plays a fixed list of words in order, ignoring the
/// history, and signals `ScriptExhausted` once the list runs out.
pub struct Scripted {
    script: Vec<String>,
    next: usize,
}

impl Scripted {
    /// A strategy that will play the given words in order.
    pub fn new(script: Vec<String>) -> (s: Scripted)
        ensures
            s.script() == script@,
            s.next() == 0,
    {
        Scripted { script, next: 0 }
    }

    /// The words the strategy was built with.
    pub closed spec fn script(&self) -> Seq<String> {
        self.script@
    }

    /// How many words it has already played.
    pub closed spec fn next(&self) -> int {
        self.next as int
    }
}

impl Guesser for Scripted {
    /// While the script lasts, the response is its next word, in order, and
    /// the cursor advances by one; after that, every response is the
    /// exhaustion signal and the state stands still.
    open spec fn resp(
        &self,
        history: Seq<Guess>,
        r: Result<String, StrategyError>,
        post: Scripted,
    ) -> bool {
        if self.next() < self.script().len() {
            &&& (r matches Ok(w) && w@ == self.script()[self.next()]@)
            &&& post.script() == self.script()
            &&& post.next() == self.next() + 1
        } else {
            &&& r == Err::<String, StrategyError>(StrategyError::ScriptExhausted)
            &&& post.script() == self.script()
            &&& post.next() == self.next()
        }
    }

    fn guess(&mut self, _history: &[Guess]) -> Result<String, StrategyError> {
        if self.next < self.script.len() {
            let w = self.script[self.next].clone();
            self.next = self.next + 1;
            Ok(w)
        } else {
            Err(StrategyError::ScriptExhausted)
        }
    }
}

/// An end-to-end game pinned by contracts alone: a fresh scripted strategy
/// whose script opens with the true answer makes the engine return `Some(1)`
/// after exactly one round.
pub proof fn lemma_script_opening_with_answer_wins(
    dict: Set<Seq<char>>,
    answer: Seq<char>,
    tr: PlayTrace<Scripted>,
    r: Result<Option<usize>, GameError>,
)
    requires
        play_outcome(dict, answer, tr, r),
        tr.states[0].next() == 0,
        tr.states[0].script().len() >= 1,
        tr.states[0].script()[0]@ == answer,
    ensures
        r == Ok::<Option<usize>, GameError>(Some(1usize)),
        tr.resps.len() == 1,
{
    lemma_answer_first_wins(dict, answer, tr, r);
}

} // verus!
