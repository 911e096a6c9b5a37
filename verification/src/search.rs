//! Locating delimiter occurrences in a line, by character position.

use vstd::prelude::*;
use crate::text::chars_of;

verus! {

/// How many times `c` occurs in `s`.
pub open spec fn occurrences(s: Seq<char>, c: char) -> nat
    decreases s.len(),
{
    if s.len() == 0 {
        0
    } else {
        occurrences(s.drop_last(), c) + if s.last() == c {
            1nat
        } else {
            0nat
        }
    }
}

/// `i` is the position of the `n`-th occurrence of `c` in `s`, counting from 1:
/// `c` stands at `i`, and exactly `n - 1` occurrences stand before it.
pub open spec fn is_nth_occurrence(s: Seq<char>, c: char, n: nat, i: int) -> bool {
    &&& 0 <= i < s.len()
    &&& s[i] == c
    &&& occurrences(s.take(i), c) + 1 == n
}

/// The position of the `n`-th occurrence of `c` in `s`, if `s` has that many.
pub open spec fn nth_occurrence(s: Seq<char>, c: char, n: nat) -> Option<int> {
    if exists|i: int| is_nth_occurrence(s, c, n, i) {
        Some(choose|i: int| is_nth_occurrence(s, c, n, i))
    } else {
        None
    }
}

/// A longer prefix holds at least as many occurrences as a shorter one.
pub proof fn lemma_occurrences_monotonic(s: Seq<char>, c: char, i: int, j: int)
    requires
        0 <= i <= j <= s.len(),
    ensures
        occurrences(s.take(i), c) <= occurrences(s.take(j), c),
    decreases j - i,
{
    if i < j {
        lemma_occurrences_monotonic(s, c, i, j - 1);
        assert(s.take(j).drop_last() =~= s.take(j - 1));
    }
}

/// Taking one more character adds one occurrence exactly when that character is `c`.
pub proof fn lemma_occurrences_step(s: Seq<char>, c: char, i: int)
    requires
        0 <= i < s.len(),
    ensures
        occurrences(s.take(i + 1), c) == occurrences(s.take(i), c) + if s[i] == c {
            1nat
        } else {
            0nat
        },
{
    assert(s.take(i + 1).drop_last() =~= s.take(i));
}

/// At most one position is the `n`-th occurrence.
pub proof fn lemma_nth_occurrence_unique(s: Seq<char>, c: char, n: nat, i: int, j: int)
    requires
        is_nth_occurrence(s, c, n, i),
        is_nth_occurrence(s, c, n, j),
    ensures
        i == j,
{
    if i < j {
        lemma_occurrences_step(s, c, i);
        lemma_occurrences_monotonic(s, c, i + 1, j);
    } else if j < i {
        lemma_occurrences_step(s, c, j);
        lemma_occurrences_monotonic(s, c, j + 1, i);
    }
}

/// Once a position is known to be the `n`-th occurrence, it is the one that
/// `nth_occurrence` names.
pub proof fn lemma_nth_occurrence_found(s: Seq<char>, c: char, n: nat, i: int)
    requires
        is_nth_occurrence(s, c, n, i),
    ensures
        nth_occurrence(s, c, n) == Some(i),
{
    let j = choose|j: int| is_nth_occurrence(s, c, n, j);
    lemma_nth_occurrence_unique(s, c, n, i, j);
}

/// What `nth_occurrence` names is an `n`-th occurrence.
pub proof fn lemma_nth_occurrence_is_one(s: Seq<char>, c: char, n: nat)
    ensures
        nth_occurrence(s, c, n) matches Some(i) ==> is_nth_occurrence(s, c, n, i),
{
}

/// There is no `n`-th occurrence exactly when `n` is zero or `s` holds fewer
/// than `n` occurrences of `c`.
pub proof fn lemma_nth_occurrence_absent(s: Seq<char>, c: char, n: nat)
    ensures
        nth_occurrence(s, c, n) is None <==> (n == 0 || occurrences(s, c) < n),
    decreases s.len(),
{
    assert(s.take(s.len() as int) =~= s);
    if n == 0 || occurrences(s, c) < n {
        assert forall|i: int| !is_nth_occurrence(s, c, n, i) by {
            if 0 <= i < s.len() && s[i] == c {
                lemma_occurrences_step(s, c, i);
                lemma_occurrences_monotonic(s, c, i + 1, s.len() as int);
            }
        }
    } else {
        // the n-th occurrence lies among all but the last character, or is the last
        let prefix = s.drop_last();
        if occurrences(prefix, c) >= n {
            lemma_nth_occurrence_absent(prefix, c, n);
            let i = choose|i: int| is_nth_occurrence(prefix, c, n, i);
            assert(prefix.take(i) =~= s.take(i));
            assert(is_nth_occurrence(s, c, n, i));
        } else {
            let i = s.len() - 1;
            assert(s.take(i) =~= prefix);
            assert(is_nth_occurrence(s, c, n, i));
        }
    }
}

/// The position of the `n`-th occurrence (counting from 1) of `delimiter` among
/// `chars`, or `None` where there are fewer than `n`, or `n` is zero.
pub fn find_nth_char(chars: &Vec<char>, delimiter: char, n: usize) -> (found: Option<usize>)
    ensures
        match found {
            Some(i) => nth_occurrence(chars@, delimiter, n as nat) == Some(i as int),
            None => nth_occurrence(chars@, delimiter, n as nat) is None,
        },
        found matches Some(i) ==> i < chars@.len(),
{
    proof {
        lemma_nth_occurrence_is_one(chars@, delimiter, n as nat);
    }
    let mut seen: usize = 0;
    let mut idx: usize = 0;
    while idx < chars.len()
        invariant
            idx <= chars.len(),
            seen == occurrences(chars@.take(idx as int), delimiter),
            seen <= idx,
            n == 0 || seen < n,
        decreases chars.len() - idx,
    {
        proof {
            lemma_occurrences_step(chars@, delimiter, idx as int);
        }
        if chars[idx] == delimiter {
            seen = seen + 1;
            if seen == n {
                proof {
                    lemma_nth_occurrence_found(chars@, delimiter, n as nat, idx as int);
                }
                return Some(idx);
            }
        }
        idx = idx + 1;
    }
    proof {
        assert(chars@.take(idx as int) =~= chars@);
        lemma_nth_occurrence_absent(chars@, delimiter, n as nat);
    }
    None
}

/// The position, in characters, of the `n`-th occurrence (counting from 1) of
/// `delimiter` in `line`, or `None` where there are fewer than `n`, or `n` is
/// zero.
pub fn find_nth(delimiter: &char, n: usize, line: &String) -> (found: Option<usize>)
    ensures
        match found {
            Some(i) => nth_occurrence(line@, *delimiter, n as nat) == Some(i as int),
            None => nth_occurrence(line@, *delimiter, n as nat) is None,
        },
        found matches Some(i) ==> i < line@.len(),
{
    let chars = chars_of(line.as_str());
    find_nth_char(&chars, *delimiter, n)
}

} // verus!
