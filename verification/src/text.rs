//! Verified helpers over the character sequences of `&str`: first-occurrence
//! search, equality, and splitting a text into lines.

use vstd::prelude::*;

verus! {

/// The first position `k` with `from <= k < s.len()` where `s[k] == c`, or
/// `s.len()` when `c` does not occur at or after `from`.
pub open spec fn find_from(s: Seq<char>, c: char, from: int) -> int
    decreases s.len() - from,
{
    if from < 0 || from >= s.len() {
        s.len() as int
    } else if s[from] == c {
        from
    } else {
        find_from(s, c, from + 1)
    }
}

/// A position with nothing equal to `c` before it, and `c` at it unless it is
/// the length, is the one `find_from` returns.
pub proof fn lemma_find_from_unique(s: Seq<char>, c: char, from: int, r: int)
    requires
        0 <= from <= r <= s.len(),
        forall|k: int| from <= k < r ==> s[k] != c,
        r < s.len() ==> s[r] == c,
    ensures
        find_from(s, c, from) == r,
    decreases r - from,
{
    if from < r {
        lemma_find_from_unique(s, c, from + 1, r);
    }
}

/// The lines of a text, split at `'\n'`; a final newline closes the last line
/// rather than opening an empty one, and an empty text has no lines.
pub open spec fn spec_lines(t: Seq<char>) -> Seq<Seq<char>>
    decreases t.len(),
{
    if t.len() == 0 {
        Seq::empty()
    } else {
        let e = find_from(t, '\n', 0);
        if 0 <= e && e < t.len() {
            seq![t.subrange(0, e)] + spec_lines(t.subrange(e + 1, t.len() as int))
        } else {
            seq![t]
        }
    }
}

/// The first position of `c` in `s` within `[from, to)`, or `to` when absent.
pub fn find_in_range(s: &str, from: usize, to: usize, c: char) -> (r: usize)
    requires
        from <= to <= s@.len(),
    ensures
        from <= r <= to,
        forall|k: int| from <= k < r ==> s@[k] != c,
        r < to ==> s@[r as int] == c,
{
    let mut j: usize = from;
    while j < to
        invariant
            from <= j <= to,
            to <= s@.len(),
            forall|k: int| from <= k < j ==> s@[k] != c,
        decreases to - j,
    {
        if s.get_char(j) == c {
            return j;
        }
        j += 1;
    }
    to
}

/// Whether two strings hold the same characters.
pub fn str_equal(a: &str, b: &str) -> (r: bool)
    ensures
        r == (a@ == b@),
{
    let la = a.unicode_len();
    let lb = b.unicode_len();
    if la != lb {
        return false;
    }
    let mut i: usize = 0;
    while i < la
        invariant
            i <= la,
            la as nat == a@.len(),
            la as nat == b@.len(),
            forall|k: int| 0 <= k < i ==> a@[k] == b@[k],
        decreases la - i,
    {
        if a.get_char(i) != b.get_char(i) {
            return false;
        }
        i += 1;
    }
    proof {
        assert(a@ =~= b@);
    }
    true
}

} // verus!
