//! A small word-guessing game: a five-letter answer, per-letter feedback for
//! each guess, and pluggable guessing strategies driven by a bounded game loop.
//!
//! [`Correctness::compute`] scores one guess against the answer. [`Wordle`]
//! owns the dictionary of guessable words and [`Wordle::play`] runs rounds of
//! one strategy, a [`Guesser`], until the answer is found or the attempt
//! budget runs out.

use vstd::prelude::*;

pub mod algorithms;
pub mod correctness;
pub mod text;

pub use correctness::Correctness;

verus! {

/// Why a dictionary text was rejected while building a [`Wordle`].
#[derive(Debug, Clone, Copy, PartialEq, Eq, Structural)]
pub enum DictionaryError {
    /// A line has no space between the word and its frequency.
    MissingSeparator,
    /// The word of a line is not exactly five letters long.
    BadWordLength,
}

/// Why a strategy could not produce a guess.
#[derive(Debug, Clone, Copy, PartialEq, Eq, Structural)]
pub enum StrategyError {
    /// The strategy is a placeholder without a decision procedure.
    NotImplemented,
    /// A scripted strategy was asked for more words than its script holds.
    ScriptExhausted,
}

/// Why a game was aborted. Both variants are defects of the caller or of the
/// strategy, never ordinary game outcomes: running out of attempts is reported
/// as a round count of `None`, not as an error.
#[derive(Debug, Clone, Copy, PartialEq, Eq, Structural)]
pub enum GameError {
    /// The strategy returned a word that the dictionary does not hold.
    NotInDictionary,
    /// The strategy failed to produce a word at all.
    Strategy(StrategyError),
}

/// One submitted word together with the mask it earned.
pub struct Guess {
    pub word: String,
    pub mask: [Correctness; 5],
}

/// A guessing strategy: asked once per round for the next word and shown the
/// history of earlier guesses with their masks, empty on round one. A strategy
/// must answer with a dictionary word; the engine rejects anything else as a
/// contract violation. A failure to produce a word at all is final.
pub trait Guesser: Sized {
    /// What this strategy may respond: `self` is its state before the call,
    /// `history` the guesses it was shown, `r` its response, and `post` its
    /// state after the call. The default leaves the strategy unspecified —
    /// any response at all; a strategy with a stated behaviour overrides it.
    open spec fn resp(
        &self,
        history: Seq<Guess>,
        r: Result<String, StrategyError>,
        post: Self,
    ) -> bool {
        true
    }

    fn guess(&mut self, history: &[Guess]) -> (r: Result<String, StrategyError>)
        ensures
            old(self).resp(history@, r, *final(self)),
    ;
}

/// The position of the separating space in a dictionary line, `l.len()` when
/// the line has none.
pub open spec fn line_sep(l: Seq<char>) -> int {
    text::find_from(l, ' ', 0)
}

/// Whether a dictionary line holds a separating space at all.
pub open spec fn line_has_sep(l: Seq<char>) -> bool {
    line_sep(l) < l.len()
}

/// The word of a dictionary line: everything before the first space.
pub open spec fn word_of_line(l: Seq<char>) -> Seq<char> {
    l.subrange(0, line_sep(l))
}

/// A well-formed dictionary line: a separating space, and a five-letter word
/// before it.
pub open spec fn line_good(l: Seq<char>) -> bool {
    line_has_sep(l) && word_of_line(l).len() == 5
}

/// The words of a sequence of dictionary lines, as a set.
pub open spec fn words_of_lines(ls: Seq<Seq<char>>) -> Set<Seq<char>> {
    ls.map_values(|l: Seq<char>| word_of_line(l)).to_set()
}

/// The index of the first ill-formed line, `ls.len()` when all are good.
pub open spec fn first_bad_line(ls: Seq<Seq<char>>) -> int
    decreases ls.len(),
{
    if ls.len() == 0 {
        0
    } else if !line_good(ls[0]) {
        0
    } else {
        1 + first_bad_line(ls.drop_first())
    }
}

proof fn lemma_first_bad_line_at(ls: Seq<Seq<char>>, i: int)
    requires
        0 <= i <= ls.len(),
        forall|k: int| 0 <= k < i ==> line_good(ls[k]),
        i < ls.len() ==> !line_good(ls[i]),
    ensures
        first_bad_line(ls) == i,
    decreases ls.len(),
{
    if ls.len() > 0 && i > 0 {
        lemma_first_bad_line_at(ls.drop_first(), i - 1);
    }
}

fn vec_has_word(words: &Vec<String>, w: &String) -> (b: bool)
    ensures
        b == (exists|j: int| 0 <= j < words@.len() && (#[trigger] words@[j])@ == w@),
{
    let mut k: usize = 0;
    while k < words.len()
        invariant
            k <= words@.len(),
            forall|j: int| 0 <= j < k ==> (#[trigger] words@[j])@ != w@,
        decreases words@.len() - k,
    {
        if text::str_equal(words[k].as_str(), w.as_str()) {
            assert(words@[k as int]@ == w@);
            return true;
        }
        k += 1;
    }
    false
}

/// The game engine: a dictionary of guessable words, read-only once built, and
/// the bounded loop that drives a strategy against one answer.
pub struct Wordle {
    dictionary: Vec<String>,
}

impl Wordle {
    /// The set of words a strategy may guess.
    pub closed spec fn words(&self) -> Set<Seq<char>> {
        self.dictionary@.map_values(|w: String| w@).to_set()
    }

    #[verifier::type_invariant]
    spec fn inv(&self) -> bool {
        &&& forall|k: int|
            0 <= k < self.dictionary@.len() ==> (#[trigger] self.dictionary@[k])@.len() == 5
        &&& forall|k1: int, k2: int|
            0 <= k1 < k2 < self.dictionary@.len() ==> self.dictionary@[k1]@ != self.dictionary@[k2]@
    }

    fn contains_word(&self, w: &String) -> (b: bool)
        ensures
            b == self.words().contains(w@),
            b ==> w@.len() == 5,
    {
        let b = vec_has_word(&self.dictionary, w);
        proof {
            use_type_invariant(&*self);
            let mapped = self.dictionary@.map_values(|x: String| x@);
            if b {
                let j = choose|j: int|
                    0 <= j < self.dictionary@.len() && (#[trigger] self.dictionary@[j])@ == w@;
                assert(mapped[j] == w@);
            } else {
                assert(forall|j: int| 0 <= j < mapped.len() ==> mapped[j] != w@);
            }
        }
        b
    }

    /// Build the dictionary from a text of lines, each a word, one space, and
    /// a frequency. The word of every line must be exactly five letters; the
    /// words are kept as a set, duplicates and frequencies dropped. The first
    /// ill-formed line decides the error: load-time failures are final.
    pub fn new(dictionary_text: &str) -> (r: Result<Wordle, DictionaryError>)
        ensures
            ({
                let ls = text::spec_lines(dictionary_text@);
                let b = first_bad_line(ls);
                match r {
                    Ok(w) => b == ls.len() && w.words() == words_of_lines(ls),
                    Err(DictionaryError::MissingSeparator) => b < ls.len() && !line_has_sep(ls[b]),
                    Err(DictionaryError::BadWordLength) => b < ls.len() && line_has_sep(ls[b])
                        && word_of_line(ls[b]).len() != 5,
                }
            }),
    {
        let ghost ls = text::spec_lines(dictionary_text@);
        let n = dictionary_text.unicode_len();
        let mut words: Vec<String> = Vec::new();
        let mut pos: usize = 0;
        let ghost mut li: int = 0;
        proof {
            assert(dictionary_text@.subrange(0, n as int) =~= dictionary_text@);
            assert(ls.skip(0) =~= ls);
            assert(ls.take(0) =~= Seq::<Seq<char>>::empty());
        }
        while pos < n
            invariant
                pos <= n,
                n as nat == dictionary_text@.len(),
                ls == text::spec_lines(dictionary_text@),
                0 <= li <= ls.len(),
                text::spec_lines(dictionary_text@.subrange(pos as int, n as int)) == ls.skip(li),
                forall|k: int| 0 <= k < li ==> line_good(ls[k]),
                words@.map_values(|x: String| x@).to_set() == words_of_lines(ls.take(li)),
                forall|k: int| 0 <= k < words@.len() ==> (#[trigger] words@[k])@.len() == 5,
                forall|k1: int, k2: int|
                    0 <= k1 < k2 < words@.len() ==> words@[k1]@ != words@[k2]@,
            decreases n - pos,
        {
            let ghost whole = dictionary_text@;
            let ghost tail = whole.subrange(pos as int, n as int);
            let e = text::find_in_range(dictionary_text, pos, n, '\n');
            let s = text::find_in_range(dictionary_text, pos, e, ' ');
            proof {
                text::lemma_find_from_unique(tail, '\n', 0, e - pos);
                assert(ls.skip(li).len() > 0);
                assert(li < ls.len());
            }
            let ghost line = whole.subrange(pos as int, e as int);
            proof {
                if e < n {
                    assert(tail.subrange(0, e - pos) =~= line);
                } else {
                    assert(tail =~= line);
                }
                assert(ls.skip(li)[0] == ls[li]);
                assert(ls[li] == line);
                text::lemma_find_from_unique(line, ' ', 0, s - pos);
            }
            if s == e {
                proof {
                    lemma_first_bad_line_at(ls, li);
                }
                return Err(DictionaryError::MissingSeparator);
            }
            if s - pos != 5 {
                proof {
                    assert(word_of_line(line) =~= whole.subrange(pos as int, s as int));
                    lemma_first_bad_line_at(ls, li);
                }
                return Err(DictionaryError::BadWordLength);
            }
            let w: String = dictionary_text.substring_char(pos, s).to_owned();
            proof {
                assert(word_of_line(line) =~= whole.subrange(pos as int, s as int));
                assert(w@ == word_of_line(ls[li]));
            }
            let ghost words_before = words@;
            if !vec_has_word(&words, &w) {
                words.push(w);
            }
            proof {
                assert(ls.take(li + 1) =~= ls.take(li).push(ls[li]));
                assert(ls.take(li + 1).map_values(|l: Seq<char>| word_of_line(l)) =~= ls.take(
                    li,
                ).map_values(|l: Seq<char>| word_of_line(l)).push(word_of_line(ls[li])));
                let old_mapped = words_before.map_values(|x: String| x@);
                let new_mapped = words@.map_values(|x: String| x@);
                let old_words = ls.take(li).map_values(|l: Seq<char>| word_of_line(l));
                let new_words = ls.take(li + 1).map_values(|l: Seq<char>| word_of_line(l));
                assert(new_words =~= old_words.push(word_of_line(ls[li])));
                assert forall|x: Seq<char>| new_mapped.contains(x) implies new_words.contains(
                    x,
                ) by {
                    let j = choose|j: int| 0 <= j < new_mapped.len() && new_mapped[j] == x;
                    if j < words_before.len() {
                        assert(old_mapped[j] == x);
                        assert(old_mapped.contains(x));
                        assert(old_mapped.to_set().contains(x));
                        assert(old_words.to_set().contains(x));
                        assert(old_words.contains(x));
                        let m = choose|m: int| 0 <= m < old_words.len() && old_words[m] == x;
                        assert(new_words[m] == x);
                    } else {
                        assert(x == w@);
                        assert(new_words[li] == x);
                    }
                }
                assert forall|x: Seq<char>| new_words.contains(x) implies new_mapped.contains(
                    x,
                ) by {
                    let m = choose|m: int| 0 <= m < new_words.len() && new_words[m] == x;
                    if m < li {
                        assert(old_words[m] == x);
                        assert(old_words.contains(x));
                        assert(old_words.to_set().contains(x));
                        assert(old_mapped.to_set().contains(x));
                        assert(old_mapped.contains(x));
                        let j = choose|j: int| 0 <= j < old_mapped.len() && old_mapped[j] == x;
                        assert(new_mapped[j] == x);
                    } else {
                        assert(x == w@);
                        if words@.len() > words_before.len() {
                            assert(new_mapped[words_before.len() as int] == x);
                        } else {
                            let j = choose|j: int|
                                0 <= j < words_before.len() && (#[trigger] words_before[j])@ == x;
                            assert(new_mapped[j] == x);
                        }
                    }
                }
                assert(new_mapped.to_set() =~= new_words.to_set());
            }
            let next = if e == n {
                n
            } else {
                e + 1
            };
            proof {
                let rest = if e - pos == tail.len() {
                    Seq::<Seq<char>>::empty()
                } else {
                    text::spec_lines(tail.subrange(e - pos + 1, tail.len() as int))
                };
                assert(text::spec_lines(tail) == seq![line] + rest || text::spec_lines(tail)
                    == seq![tail]);
                assert(ls.skip(li + 1) =~= ls.skip(li).drop_first());
                if e == n {
                    assert(ls.skip(li).len() == 1);
                    assert(ls.skip(li + 1) =~= Seq::<Seq<char>>::empty());
                    assert(whole.subrange(next as int, n as int) =~= Seq::<char>::empty());
                } else {
                    assert(tail.subrange(e - pos + 1, tail.len() as int) =~= whole.subrange(
                        next as int,
                        n as int,
                    ));
                    assert((seq![line] + rest).drop_first() =~= rest);
                }
                li = li + 1;
            }
            pos = next;
        }
        proof {
            assert(dictionary_text@.subrange(pos as int, n as int) =~= Seq::<char>::empty());
            assert(ls.skip(li).len() == 0);
            assert(li == ls.len());
            lemma_first_bad_line_at(ls, li);
            assert(ls.take(li) =~= ls);
        }
        Ok(Wordle { dictionary: words })
    }

    /// Drive `guesser` against `answer` for at most 32 rounds. `Some(round)`
    /// is a win in that round, `None` an exhausted attempt budget; an error is
    /// a strategy defect, never a game outcome. The ghost component traces the
    /// run — the strategy's states, its responses, and the history entries the
    /// engine built from them — starting from the very strategy handed in, and
    /// the result relates to that trace by [`play_outcome`].
    pub fn play<G: Guesser>(&self, answer: &str, guesser: G) -> (r: (
        Result<Option<usize>, GameError>,
        Ghost<PlayTrace<G>>,
    ))
        requires
            answer@.len() == 5,
        ensures
            play_outcome(self.words(), answer@, r.1@, r.0),
            r.1@.states[0] == guesser,
    {
        let ghost init = guesser;
        let mut guesser = guesser;
        let mut history: Vec<Guess> = Vec::new();
        let ghost mut states: Seq<G> = seq![init];
        let ghost mut resps: Seq<Result<String, StrategyError>> = Seq::empty();
        let mut round: usize = 1;
        #[verifier::loop_isolation(false)]
        while round <= 32
            invariant
                1 <= round <= 33,
                states.len() == round as int,
                resps.len() == round - 1,
                history@.len() == round - 1,
                states[0] == init,
                states[states.len() - 1] == guesser,
                forall|k: int| 0 <= k < round - 1 ==> #[trigger] chain_holds(states, resps, history@, k),
                forall|j: int|
                    0 <= j < round - 1 ==> history_entry(
                        self.words(),
                        answer@,
                        resps[j],
                        #[trigger] history@[j],
                    ),
            decreases 33 - round,
        {
            let ghost states_before = states;
            let ghost resps_before = resps;
            let ghost pre = guesser;
            let ghost history_before = history@;
            let res = guesser.guess(history.as_slice());
            proof {
                states = states.push(guesser);
                resps = resps.push(res);
                assert(history@.take(round - 1) =~= history@);
                assert(chain_holds(states, resps, history@, round - 1));
                assert forall|k: int| 0 <= k < round implies #[trigger] chain_holds(
                    states,
                    resps,
                    history@,
                    k,
                ) by {
                    if k < round - 1 {
                        assert(chain_holds(states_before, resps_before, history@, k));
                    }
                }
            }
            match res {
                Err(e) => {
                    return (
                        Err(GameError::Strategy(e)),
                        Ghost(PlayTrace { states, resps, history: history@ }),
                    );
                },
                Ok(word) => {
                    if text::str_equal(word.as_str(), answer) {
                        return (
                            Ok(Some(round)),
                            Ghost(PlayTrace { states, resps, history: history@ }),
                        );
                    }
                    if !self.contains_word(&word) {
                        return (
                            Err(GameError::NotInDictionary),
                            Ghost(PlayTrace { states, resps, history: history@ }),
                        );
                    }
                    let mask = Correctness::compute(answer, word.as_str());
                    history.push(Guess { word, mask });
                    proof {
                        assert(history_entry(
                            self.words(),
                            answer@,
                            resps[round - 1],
                            history@[round - 1],
                        ));
                        assert forall|k: int| 0 <= k < round implies #[trigger] chain_holds(
                            states,
                            resps,
                            history@,
                            k,
                        ) by {
                            assert(history@.take(k) =~= history_before.take(k));
                            assert(chain_holds(states, resps, history_before, k));
                        }
                    }
                    round += 1;
                },
            }
        }
        (Ok(None), Ghost(PlayTrace { states, resps, history: history@ }))
    }
}

/// A completed round as the engine appended it to the history: the round's
/// response was a word, not the answer, the dictionary holds it, and the mask
/// stored beside it is the evaluator's mask for it.
pub open spec fn history_entry(
    dict: Set<Seq<char>>,
    answer: Seq<char>,
    r: Result<String, StrategyError>,
    g: Guess,
) -> bool {
    r matches Ok(w) && g.word == w && w@ != answer && dict.contains(w@) && g.mask@
        == correctness::spec_mask(answer, w@)
}

/// A ghost record of one run of [`Wordle::play`]: the strategy's state before
/// each call and after the last one, its response to each call, and the
/// history entries the engine appended.
#[verifier::reject_recursive_types(G)]
pub struct PlayTrace<G> {
    pub states: Seq<G>,
    pub resps: Seq<Result<String, StrategyError>>,
    pub history: Seq<Guess>,
}

/// The `k`-th strategy call of a run: it started from the state the previous
/// call left, was shown exactly the first `k` history entries in
/// chronological order, and answered as its [`Guesser::resp`] says.
pub open spec fn chain_holds<G: Guesser>(
    states: Seq<G>,
    resps: Seq<Result<String, StrategyError>>,
    history: Seq<Guess>,
    k: int,
) -> bool {
    states[k].resp(history.take(k), resps[k], states[k + 1])
}

/// What every run of the engine did, whatever its result: the strategy was
/// asked between 1 and 32 times, each call as [`chain_holds`] says, and every
/// completed round stands in the history as [`history_entry`] demands. Every
/// round but the last appended an entry; the last did unless it ended the
/// game.
pub open spec fn play_trace<G: Guesser>(
    dict: Set<Seq<char>>,
    answer: Seq<char>,
    tr: PlayTrace<G>,
) -> bool {
    &&& tr.states.len() == tr.resps.len() + 1
    &&& 1 <= tr.resps.len() <= 32
    &&& tr.resps.len() - 1 <= tr.history.len() <= tr.resps.len()
    &&& forall|k: int|
        0 <= k < tr.resps.len() ==> #[trigger] chain_holds(tr.states, tr.resps, tr.history, k)
    &&& forall|j: int|
        0 <= j < tr.history.len() ==> history_entry(dict, answer, tr.resps[j], #[trigger] tr.history[j])
}

/// How the result of [`Wordle::play`] relates to its trace: the trace is a
/// [`play_trace`], and the result names its last response — a win in round
/// `i` when the `i`-th response was the answer, exhaustion after a full 32
/// appended rounds, and each error exactly when the last response earned it.
pub open spec fn play_outcome<G: Guesser>(
    dict: Set<Seq<char>>,
    answer: Seq<char>,
    tr: PlayTrace<G>,
    r: Result<Option<usize>, GameError>,
) -> bool {
    &&& play_trace(dict, answer, tr)
    &&& match r {
        Ok(Some(i)) => 1 <= i <= 32 && tr.resps.len() == i && tr.history.len() == i - 1 && (
        tr.resps.last() matches Ok(w) && w@ == answer),
        Ok(None) => tr.resps.len() == 32 && tr.history.len() == 32,
        Err(GameError::NotInDictionary) => tr.history.len() == tr.resps.len() - 1 && (
        tr.resps.last() matches Ok(w) && w@ != answer && !dict.contains(w@)),
        Err(GameError::Strategy(e)) => tr.history.len() == tr.resps.len() - 1 && tr.resps.last()
            == Err::<String, StrategyError>(e),
    }
}

/// A strategy whose specification only lets it answer with the true answer
/// wins in round one: the engine returned `Some(1)` after exactly one call.
pub proof fn lemma_answer_first_wins<G: Guesser>(
    dict: Set<Seq<char>>,
    answer: Seq<char>,
    tr: PlayTrace<G>,
    r: Result<Option<usize>, GameError>,
)
    requires
        play_outcome(dict, answer, tr, r),
        forall|h: Seq<Guess>, q: Result<String, StrategyError>, post: G|
            #[trigger] tr.states[0].resp(h, q, post) ==> (q matches Ok(w) && w@ == answer),
    ensures
        r == Ok::<Option<usize>, GameError>(Some(1usize)),
        tr.resps.len() == 1,
{
    assert(chain_holds(tr.states, tr.resps, tr.history, 0));
    assert(tr.states[0].resp(tr.history.take(0), tr.resps[0], tr.states[1]));
    if tr.history.len() >= 1 {
        assert(history_entry(dict, answer, tr.resps[0], tr.history[0]));
    }
}

/// A strategy whose specification only lets it answer with dictionary words
/// other than the answer exhausts the attempt budget: the engine returned
/// `None` after exactly 32 rounds.
pub proof fn lemma_never_matching_exhausts<G: Guesser>(
    dict: Set<Seq<char>>,
    answer: Seq<char>,
    tr: PlayTrace<G>,
    r: Result<Option<usize>, GameError>,
)
    requires
        play_outcome(dict, answer, tr, r),
        forall|k: int, h: Seq<Guess>, q: Result<String, StrategyError>, post: G|
            0 <= k < tr.states.len() ==> (#[trigger] tr.states[k].resp(h, q, post) ==> (q matches
            Ok(w) && w@ != answer && dict.contains(w@))),
    ensures
        r == Ok::<Option<usize>, GameError>(None),
        tr.resps.len() == 32,
{
    let last = tr.resps.len() - 1;
    assert(chain_holds(tr.states, tr.resps, tr.history, last));
    assert(tr.states[last].resp(tr.history.take(last), tr.resps[last], tr.states[last + 1]));
}

/// The engine rejects a strategy whose specification makes its first word one
/// the dictionary does not hold: the game is aborted in round one with
/// `NotInDictionary`.
pub proof fn lemma_rejects_unknown_word<G: Guesser>(
    dict: Set<Seq<char>>,
    answer: Seq<char>,
    tr: PlayTrace<G>,
    r: Result<Option<usize>, GameError>,
    w: Seq<char>,
)
    requires
        play_outcome(dict, answer, tr, r),
        w != answer,
        !dict.contains(w),
        forall|h: Seq<Guess>, q: Result<String, StrategyError>, post: G|
            #[trigger] tr.states[0].resp(h, q, post) ==> (q matches Ok(x) && x@ == w),
    ensures
        r == Err::<Option<usize>, GameError>(GameError::NotInDictionary),
        tr.resps.len() == 1,
{
    assert(chain_holds(tr.states, tr.resps, tr.history, 0));
    assert(tr.states[0].resp(tr.history.take(0), tr.resps[0], tr.states[1]));
    if tr.history.len() >= 1 {
        assert(history_entry(dict, answer, tr.resps[0], tr.history[0]));
    }
}

} // verus!
