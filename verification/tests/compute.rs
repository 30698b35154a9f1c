use dwordle::Correctness;

#[test]
fn all_green() {
    assert_eq!(
        Correctness::compute("abcde", "abcde"),
        [Correctness::Correct; 5]
    );
}

#[test]
fn all_grey() {
    assert_eq!(
        Correctness::compute("abcde", "fghij"),
        [Correctness::Wrong; 5]
    );
}

#[test]
fn all_yellow() {
    assert_eq!(
        Correctness::compute("abcde", "eabcd"),
        [Correctness::Misplaced; 5]
    );
}

#[test]
fn repeat_green() {
    assert_eq!(
        Correctness::compute("aabbb", "aaccc"),
        [
            Correctness::Correct,
            Correctness::Correct,
            Correctness::Wrong,
            Correctness::Wrong,
            Correctness::Wrong
        ]
    );
}

#[test]
fn repeat_yellow() {
    assert_eq!(
        Correctness::compute("aabbb", "ccaac"),
        [
            Correctness::Wrong,
            Correctness::Wrong,
            Correctness::Misplaced,
            Correctness::Misplaced,
            Correctness::Wrong
        ]
    );
}

#[test]
fn repeat_some_green() {
    assert_eq!(
        Correctness::compute("aabbb", "caacc"),
        [
            Correctness::Wrong,
            Correctness::Correct,
            Correctness::Misplaced,
            Correctness::Wrong,
            Correctness::Wrong
        ]
    );
}

#[test]
fn from_chat1() {
    assert_eq!(
        Correctness::compute("azzaz", "aaabb"),
        [
            Correctness::Correct,
            Correctness::Misplaced,
            Correctness::Wrong,
            Correctness::Wrong,
            Correctness::Wrong
        ]
    );
}

// Correct entries stand exactly where answer and guess agree, even when the
// disagreeing positions swap letters around.
#[test]
fn correct_iff_positions_match() {
    assert_eq!(
        Correctness::compute("abcde", "abdce"),
        [
            Correctness::Correct,
            Correctness::Correct,
            Correctness::Misplaced,
            Correctness::Misplaced,
            Correctness::Correct
        ]
    );
}

// Letter conservation on duplicates: the answer holds two `a`s, so of the four
// `a`s in the guess only two are credited, and none beyond the exact matches.
#[test]
fn conservation_with_duplicates() {
    let mask = Correctness::compute("aabbb", "aaaac");
    assert_eq!(
        mask,
        [
            Correctness::Correct,
            Correctness::Correct,
            Correctness::Wrong,
            Correctness::Wrong,
            Correctness::Wrong
        ]
    );
    let credited = mask
        .iter()
        .filter(|c| **c != Correctness::Wrong)
        .count();
    assert_eq!(credited, 2);
}
