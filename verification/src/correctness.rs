//! Per-letter scoring of a guess against an answer.
//!
//! The mask is specified declaratively through letter counts: a guess position
//! is `Correct` exactly on a positional match, and a non-matching position is
//! `Misplaced` exactly when the answer still has an occurrence of that letter
//! left over for it, earlier guess positions being served first.

use vstd::prelude::*;

verus! {

/// Classification of one guess letter relative to one evaluation of the answer.
#[derive(Debug, Clone, Copy, PartialEq, Eq, Structural)]
pub enum Correctness {
    /// The letter stands at this very position in the answer.
    Correct,
    /// The letter occurs elsewhere in the answer, at a position no other guess
    /// letter has already claimed.
    Misplaced,
    /// Every occurrence of the letter in the answer is taken, or there is none.
    Wrong,
}

/// Number of positions `j < n` at which `s` holds `ch` but disagrees with `o`.
///
/// With `s` the answer and `o` the guess this counts the occurrences of `ch`
/// in the answer that the exact-position pass leaves unclaimed; with the roles
/// swapped it counts the guess positions holding `ch` that still need a claim.
pub open spec fn pending_count(s: Seq<char>, o: Seq<char>, ch: char, n: int) -> int
    decreases n,
{
    if n <= 0 {
        0
    } else {
        pending_count(s, o, ch, n - 1) + if s[n - 1] == ch && s[n - 1] != o[n - 1] {
            1int
        } else {
            0int
        }
    }
}

/// The smaller of two integers.
pub open spec fn min_int(a: int, b: int) -> int {
    if a <= b {
        a
    } else {
        b
    }
}

/// The mask entry owed to guess position `i`: `Correct` on a positional match;
/// otherwise `Misplaced` exactly when the guess positions before `i` holding
/// the same letter do not use up the answer's unclaimed occurrences of it.
pub open spec fn spec_mask_at(answer: Seq<char>, guess: Seq<char>, i: int) -> Correctness {
    if answer[i] == guess[i] {
        Correctness::Correct
    } else if pending_count(guess, answer, guess[i], i) < pending_count(
        answer,
        guess,
        guess[i],
        answer.len() as int,
    ) {
        Correctness::Misplaced
    } else {
        Correctness::Wrong
    }
}

/// The whole mask for one evaluation, one entry per guess position.
pub open spec fn spec_mask(answer: Seq<char>, guess: Seq<char>) -> Seq<Correctness> {
    Seq::new(guess.len(), |i: int| spec_mask_at(answer, guess, i))
}

proof fn lemma_pending_count_nonneg(s: Seq<char>, o: Seq<char>, ch: char, n: int)
    ensures
        pending_count(s, o, ch, n) >= 0,
    decreases n,
{
    if n > 0 {
        lemma_pending_count_nonneg(s, o, ch, n - 1);
    }
}

/// Number of positions `j < n` at which the answer holds an unclaimed-by-the
/// exact-pass occurrence of `ch` that `used` marks as claimed.
spec fn used_pending_count(
    answer: Seq<char>,
    guess: Seq<char>,
    used: Seq<bool>,
    ch: char,
    n: int,
) -> int
    decreases n,
{
    if n <= 0 {
        0
    } else {
        used_pending_count(answer, guess, used, ch, n - 1) + if used[n - 1] && answer[n - 1] == ch
            && answer[n - 1] != guess[n - 1] {
            1int
        } else {
            0int
        }
    }
}

proof fn lemma_no_pending_used(answer: Seq<char>, guess: Seq<char>, used: Seq<bool>, ch: char, n: int)
    requires
        forall|j: int| 0 <= j < n ==> (used[j] ==> answer[j] == guess[j]),
    ensures
        used_pending_count(answer, guess, used, ch, n) == 0,
    decreases n,
{
    if n > 0 {
        lemma_no_pending_used(answer, guess, used, ch, n - 1);
    }
}

proof fn lemma_used_le_pending(answer: Seq<char>, guess: Seq<char>, used: Seq<bool>, ch: char, n: int)
    ensures
        used_pending_count(answer, guess, used, ch, n) <= pending_count(answer, guess, ch, n),
    decreases n,
{
    if n > 0 {
        lemma_used_le_pending(answer, guess, used, ch, n - 1);
    }
}

proof fn lemma_unused_slot_strict(
    answer: Seq<char>,
    guess: Seq<char>,
    used: Seq<bool>,
    ch: char,
    n: int,
    j0: int,
)
    requires
        0 <= j0 < n,
        !used[j0],
        answer[j0] == ch,
        answer[j0] != guess[j0],
    ensures
        used_pending_count(answer, guess, used, ch, n) < pending_count(answer, guess, ch, n),
    decreases n,
{
    if j0 == n - 1 {
        lemma_used_le_pending(answer, guess, used, ch, n - 1);
    } else {
        lemma_unused_slot_strict(answer, guess, used, ch, n - 1, j0);
    }
}

proof fn lemma_all_pending_used(
    answer: Seq<char>,
    guess: Seq<char>,
    used: Seq<bool>,
    ch: char,
    n: int,
)
    requires
        forall|j: int| 0 <= j < n && answer[j] == ch && answer[j] != guess[j] ==> used[j],
    ensures
        used_pending_count(answer, guess, used, ch, n) == pending_count(answer, guess, ch, n),
    decreases n,
{
    if n > 0 {
        lemma_all_pending_used(answer, guess, used, ch, n - 1);
    }
}

proof fn lemma_used_update(
    answer: Seq<char>,
    guess: Seq<char>,
    used: Seq<bool>,
    ch: char,
    n: int,
    j0: int,
)
    requires
        0 <= j0 < used.len(),
        n <= used.len(),
        !used[j0],
    ensures
        used_pending_count(answer, guess, used.update(j0, true), ch, n) == used_pending_count(
            answer,
            guess,
            used,
            ch,
            n,
        ) + if j0 < n && answer[j0] == ch && answer[j0] != guess[j0] {
            1int
        } else {
            0int
        },
    decreases n,
{
    if n > 0 {
        lemma_used_update(answer, guess, used, ch, n - 1, j0);
    }
}

/// Number of positions `j < n` at which `s` holds `ch`.
pub open spec fn letter_count(s: Seq<char>, ch: char, n: int) -> int
    decreases n,
{
    if n <= 0 {
        0
    } else {
        letter_count(s, ch, n - 1) + if s[n - 1] == ch {
            1int
        } else {
            0int
        }
    }
}

/// Number of guess positions `i < n` holding `ch` whose mask entry credits the
/// letter, that is, comes out `Correct` or `Misplaced`.
pub open spec fn credited_count(answer: Seq<char>, guess: Seq<char>, ch: char, n: int) -> int
    decreases n,
{
    if n <= 0 {
        0
    } else {
        credited_count(answer, guess, ch, n - 1) + if guess[n - 1] == ch && spec_mask_at(
            answer,
            guess,
            n - 1,
        ) != Correctness::Wrong {
            1int
        } else {
            0int
        }
    }
}

/// Number of positions `j < n` at which `s` and `o` agree on `ch`.
spec fn exact_count(s: Seq<char>, o: Seq<char>, ch: char, n: int) -> int
    decreases n,
{
    if n <= 0 {
        0
    } else {
        exact_count(s, o, ch, n - 1) + if s[n - 1] == ch && s[n - 1] == o[n - 1] {
            1int
        } else {
            0int
        }
    }
}

/// Number of guess positions `i < n` holding `ch` whose mask entry is `Misplaced`.
spec fn misplaced_count(answer: Seq<char>, guess: Seq<char>, ch: char, n: int) -> int
    decreases n,
{
    if n <= 0 {
        0
    } else {
        misplaced_count(answer, guess, ch, n - 1) + if guess[n - 1] == ch && spec_mask_at(
            answer,
            guess,
            n - 1,
        ) == Correctness::Misplaced {
            1int
        } else {
            0int
        }
    }
}

proof fn lemma_letter_split(s: Seq<char>, o: Seq<char>, ch: char, n: int)
    ensures
        letter_count(s, ch, n) == exact_count(s, o, ch, n) + pending_count(s, o, ch, n),
    decreases n,
{
    if n > 0 {
        lemma_letter_split(s, o, ch, n - 1);
    }
}

proof fn lemma_exact_count_symmetric(s: Seq<char>, o: Seq<char>, ch: char, n: int)
    ensures
        exact_count(s, o, ch, n) == exact_count(o, s, ch, n),
    decreases n,
{
    if n > 0 {
        lemma_exact_count_symmetric(s, o, ch, n - 1);
    }
}

proof fn lemma_credited_split(answer: Seq<char>, guess: Seq<char>, ch: char, n: int)
    requires
        n <= guess.len(),
        answer.len() == guess.len(),
    ensures
        credited_count(answer, guess, ch, n) == exact_count(guess, answer, ch, n)
            + misplaced_count(answer, guess, ch, n),
    decreases n,
{
    if n > 0 {
        lemma_credited_split(answer, guess, ch, n - 1);
    }
}

proof fn lemma_misplaced_count_is_min(answer: Seq<char>, guess: Seq<char>, ch: char, n: int)
    requires
        0 <= n <= guess.len(),
        answer.len() == guess.len(),
    ensures
        misplaced_count(answer, guess, ch, n) == min_int(
            pending_count(guess, answer, ch, n),
            pending_count(answer, guess, ch, answer.len() as int),
        ),
    decreases n,
{
    lemma_pending_count_nonneg(answer, guess, ch, answer.len() as int);
    if n > 0 {
        lemma_misplaced_count_is_min(answer, guess, ch, n - 1);
    }
}

/// Positional correctness: every mask has five entries, with `Correct`
/// standing exactly at the positions where answer and guess agree.
pub proof fn lemma_correct_iff_positions_match(answer: Seq<char>, guess: Seq<char>)
    requires
        answer.len() == 5,
        guess.len() == 5,
    ensures
        spec_mask(answer, guess).len() == 5,
        forall|i: int|
            0 <= i < 5 ==> ((spec_mask(answer, guess)[i] == Correctness::Correct) <==> answer[i]
                == guess[i]),
{
}

/// Letter conservation: for any letter, the guess positions credited as
/// `Correct` or `Misplaced` never outnumber that letter's occurrences in the
/// answer, nor its occurrences in the guess.
pub proof fn lemma_letter_conservation(answer: Seq<char>, guess: Seq<char>, ch: char)
    requires
        answer.len() == 5,
        guess.len() == 5,
    ensures
        credited_count(answer, guess, ch, 5) <= letter_count(answer, ch, 5),
        credited_count(answer, guess, ch, 5) <= letter_count(guess, ch, 5),
{
    lemma_credited_split(answer, guess, ch, 5);
    lemma_misplaced_count_is_min(answer, guess, ch, 5);
    lemma_letter_split(answer, guess, ch, 5);
    lemma_letter_split(guess, answer, ch, 5);
    lemma_exact_count_symmetric(answer, guess, ch, 5);
    lemma_pending_count_nonneg(guess, answer, ch, 5);
    lemma_pending_count_nonneg(answer, guess, ch, 5);
}

/// Find the leftmost answer position that holds `ch` and is not yet claimed.
fn find_unused(answer: &str, used: &[bool; 5], ch: char) -> (r: Option<usize>)
    requires
        answer@.len() == 5,
    ensures
        (match r {
            Some(j) => j < 5 && answer@[j as int] == ch && !used@[j as int] && forall|k: int|
                0 <= k < j ==> !(answer@[k] == ch && !used@[k]),
            None => forall|k: int| 0 <= k < 5 ==> !(answer@[k] == ch && !used@[k]),
        }),
{
    let mut j: usize = 0;
    while j < 5
        invariant
            j <= 5,
            answer@.len() == 5,
            forall|k: int| 0 <= k < j ==> !(answer@[k] == ch && !used@[k]),
        decreases 5 - j,
    {
        if !used[j] && answer.get_char(j) == ch {
            return Some(j);
        }
        j += 1;
    }
    None
}

impl Correctness {
    /// Score `guess` against `answer`, the two passes of the game's rules: an
    /// exact-position pass marks matches `Correct` and claims those answer
    /// positions; then each remaining guess letter, left to right, claims the
    /// leftmost unclaimed answer position holding the same letter and is
    /// `Misplaced`, or is `Wrong` when none is left.
    pub fn compute(answer: &str, guess: &str) -> (mask: [Correctness; 5])
        requires
            answer@.len() == 5,
            guess@.len() == 5,
        ensures
            mask@ == spec_mask(answer@, guess@),
            forall|i: int|
                0 <= i < 5 ==> ((mask@[i] == Correctness::Correct) <==> answer@[i] == guess@[i]),
    {
        let mut mask = [Correctness::Wrong; 5];
        let mut used = [false; 5];
        let mut i: usize = 0;
        while i < 5
            invariant
                i <= 5,
                answer@.len() == 5,
                guess@.len() == 5,
                forall|k: int|
                    0 <= k < i ==> mask@[k] == (if answer@[k] == guess@[k] {
                        Correctness::Correct
                    } else {
                        Correctness::Wrong
                    }),
                forall|k: int| 0 <= k < i ==> used@[k] == (answer@[k] == guess@[k]),
                forall|k: int| i <= k < 5 ==> mask@[k] == Correctness::Wrong && !used@[k],
            decreases 5 - i,
        {
            if answer.get_char(i) == guess.get_char(i) {
                mask[i] = Correctness::Correct;
                used[i] = true;
            }
            i += 1;
        }
        proof {
            assert forall|ch: char| #[trigger] used_pending_count(answer@, guess@, used@, ch, 5)
                == min_int(pending_count(guess@, answer@, ch, 0), pending_count(answer@, guess@, ch, 5))
            by {
                lemma_no_pending_used(answer@, guess@, used@, ch, 5);
                lemma_pending_count_nonneg(answer@, guess@, ch, 5);
            }
        }
        let mut i: usize = 0;
        while i < 5
            invariant
                i <= 5,
                answer@.len() == 5,
                guess@.len() == 5,
                forall|k: int| 0 <= k < 5 ==> ((mask@[k] == Correctness::Correct) <==> answer@[k] == guess@[k]),
                forall|k: int| 0 <= k < 5 ==> (answer@[k] == guess@[k] ==> used@[k]),
                forall|k: int| 0 <= k < i ==> mask@[k] == spec_mask_at(answer@, guess@, k),
                forall|k: int|
                    i <= k < 5 ==> mask@[k] == (if answer@[k] == guess@[k] {
                        Correctness::Correct
                    } else {
                        Correctness::Wrong
                    }),
                forall|ch: char| #[trigger] used_pending_count(answer@, guess@, used@, ch, 5)
                    == min_int(
                    pending_count(guess@, answer@, ch, i as int),
                    pending_count(answer@, guess@, ch, 5),
                ),
            decreases 5 - i,
        {
            let gi = guess.get_char(i);
            if answer.get_char(i) == gi {
                proof {
                    assert forall|ch: char| pending_count(guess@, answer@, ch, (i + 1) as int)
                        == pending_count(guess@, answer@, ch, i as int) by {}
                }
            } else {
                let ghost used_before = used@;
                match find_unused(answer, &used, gi) {
                    Some(j) => {
                        used[j] = true;
                        mask[i] = Correctness::Misplaced;
                        proof {
                            assert(answer@[j as int] != guess@[j as int]);
                            lemma_unused_slot_strict(answer@, guess@, used_before, gi, 5, j as int);
                            assert(used_pending_count(answer@, guess@, used_before, gi, 5)
                                == min_int(
                                pending_count(guess@, answer@, gi, i as int),
                                pending_count(answer@, guess@, gi, 5),
                            ));
                            assert(pending_count(guess@, answer@, gi, i as int) < pending_count(
                                answer@,
                                guess@,
                                gi,
                                5,
                            ));
                            assert(spec_mask_at(answer@, guess@, i as int) == Correctness::Misplaced);
                            assert(used@ == used_before.update(j as int, true));
                            assert forall|ch: char| #[trigger] used_pending_count(
                                answer@,
                                guess@,
                                used@,
                                ch,
                                5,
                            ) == min_int(
                                pending_count(guess@, answer@, ch, (i + 1) as int),
                                pending_count(answer@, guess@, ch, 5),
                            ) by {
                                lemma_used_update(answer@, guess@, used_before, ch, 5, j as int);
                                assert(pending_count(guess@, answer@, ch, (i + 1) as int)
                                    == pending_count(guess@, answer@, ch, i as int) + if guess@[
                                    i as int
                                ] == ch && guess@[i as int] != answer@[i as int] {
                                    1int
                                } else {
                                    0int
                                });
                            }
                        }
                    },
                    None => {
                        proof {
                            assert forall|j: int|
                                0 <= j < 5 && answer@[j] == gi && answer@[j] != guess@[j]
                                implies used_before[j] by {}
                            lemma_all_pending_used(answer@, guess@, used_before, gi, 5);
                            assert(used_pending_count(answer@, guess@, used_before, gi, 5)
                                == min_int(
                                pending_count(guess@, answer@, gi, i as int),
                                pending_count(answer@, guess@, gi, 5),
                            ));
                            assert(pending_count(guess@, answer@, gi, i as int) >= pending_count(
                                answer@,
                                guess@,
                                gi,
                                5,
                            ));
                            assert(spec_mask_at(answer@, guess@, i as int) == Correctness::Wrong);
                            assert forall|ch: char| #[trigger] used_pending_count(
                                answer@,
                                guess@,
                                used@,
                                ch,
                                5,
                            ) == min_int(
                                pending_count(guess@, answer@, ch, (i + 1) as int),
                                pending_count(answer@, guess@, ch, 5),
                            ) by {
                                assert(pending_count(guess@, answer@, ch, (i + 1) as int)
                                    == pending_count(guess@, answer@, ch, i as int) + if guess@[
                                    i as int
                                ] == ch && guess@[i as int] != answer@[i as int] {
                                    1int
                                } else {
                                    0int
                                });
                            }
                        }
                    },
                }
            }
            i += 1;
        }
        proof {
            assert(mask@ =~= spec_mask(answer@, guess@));
        }
        mask
    }
}

} // verus!
