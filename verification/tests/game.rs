use dwordle::algorithms::{Naive, Scripted};
use dwordle::{Correctness, DictionaryError, GameError, Guess, Guesser, StrategyError, Wordle};

struct Always(&'static str);

impl Guesser for Always {
    fn guess(&mut self, _history: &[Guess]) -> Result<String, StrategyError> {
        Ok(self.0.to_string())
    }
}

#[test]
fn play() {
    let w = Wordle::new("moved 1").unwrap();
    assert_eq!(w.play("moved", Always("moved")).0, Ok(Some(1)));
}

// A strategy that answers with the true answer wins in round one whatever the
// dictionary holds.
#[test]
fn answer_on_round_one_wins() {
    let w = Wordle::new("").unwrap();
    assert_eq!(w.play("right", Always("right")).0, Ok(Some(1)));
}

// A strategy that always returns a valid dictionary word that never matches
// exhausts the budget: `None` after exactly 32 rounds.
#[test]
fn never_matching_exhausts_budget() {
    let w = Wordle::new("aaaaa 10\nccccc 2").unwrap();
    let (result, _) = w.play("ccccc", Always("aaaaa"));
    assert_eq!(result, Ok(None));
}

// Exactly 32 rounds are played: a script one word short is asked once more
// than it can answer, and a script of 32 words is never asked again.
#[test]
fn never_matching_asks_thirty_two_times() {
    let w = Wordle::new("aaaaa 10").unwrap();
    let one_short: Vec<String> = std::iter::repeat("aaaaa".to_string()).take(31).collect();
    assert_eq!(
        w.play("bbbbb", Scripted::new(one_short)).0,
        Err(GameError::Strategy(StrategyError::ScriptExhausted))
    );
    let full: Vec<String> = std::iter::repeat("aaaaa".to_string()).take(32).collect();
    assert_eq!(w.play("bbbbb", Scripted::new(full)).0, Ok(None));
}

// The engine rejects a strategy that returns a word absent from the
// dictionary: a fatal contract violation, not a game outcome.
#[test]
fn rejects_word_outside_dictionary() {
    let w = Wordle::new("aaaaa 10").unwrap();
    assert_eq!(
        w.play("aaaaa", Always("zzzzz")).0,
        Err(GameError::NotInDictionary)
    );
}

#[test]
fn placeholder_strategy_fails_fast() {
    let w = Wordle::new("aaaaa 10").unwrap();
    assert_eq!(
        w.play("aaaaa", Naive::new()).0,
        Err(GameError::Strategy(StrategyError::NotImplemented))
    );
}

#[test]
fn scripted_strategy_plays_in_order() {
    let w = Wordle::new("aaaaa 10\nccccc 2").unwrap();
    let script = vec!["aaaaa".to_string(), "ccccc".to_string()];
    assert_eq!(w.play("ccccc", Scripted::new(script)).0, Ok(Some(2)));
}

#[test]
fn scripted_strategy_exhausts() {
    let w = Wordle::new("aaaaa 10").unwrap();
    assert_eq!(
        w.play("aaaaa", Scripted::new(Vec::new())).0,
        Err(GameError::Strategy(StrategyError::ScriptExhausted))
    );
}

struct MaskChecker;

impl Guesser for MaskChecker {
    fn guess(&mut self, history: &[Guess]) -> Result<String, StrategyError> {
        if history.is_empty() {
            return Ok("ccaac".to_string());
        }
        let expected = [
            Correctness::Wrong,
            Correctness::Wrong,
            Correctness::Misplaced,
            Correctness::Misplaced,
            Correctness::Wrong,
        ];
        if history[0].word == "ccaac" && history[0].mask == expected {
            Ok("aabbb".to_string())
        } else {
            Ok("zzzzz".to_string())
        }
    }
}

// The history handed to the strategy carries the submitted word and the mask
// the evaluator computed for it.
#[test]
fn history_carries_words_and_masks() {
    let w = Wordle::new("ccaac 7\naabbb 9").unwrap();
    assert_eq!(w.play("aabbb", MaskChecker).0, Ok(Some(2)));
}

#[test]
fn dictionary_line_without_separator_is_fatal() {
    assert_eq!(
        Wordle::new("abcde").err(),
        Some(DictionaryError::MissingSeparator)
    );
    assert_eq!(
        Wordle::new("valid 12\n\nother 3").err(),
        Some(DictionaryError::MissingSeparator)
    );
}

#[test]
fn dictionary_word_of_wrong_length_is_fatal() {
    assert_eq!(
        Wordle::new("abcd 12").err(),
        Some(DictionaryError::BadWordLength)
    );
    assert_eq!(
        Wordle::new("abcde 12\ntoolong 1").err(),
        Some(DictionaryError::BadWordLength)
    );
}

#[test]
fn dictionary_deduplicates_and_ignores_frequency() {
    let w = Wordle::new("hello 123\nhello 456\nwords 1").unwrap();
    // "hello" is guessable despite the duplicate lines and differing
    // frequencies, so the game runs to exhaustion rather than aborting.
    assert_eq!(w.play("words", Always("hello")).0, Ok(None));
}
