//! The patterns that mark a character of a word as one that can go.
//!
//! Each rule says of a position whether it matches; a word is shortened at
//! the first position that does.
//!
//! A run of letters is a stretch of ASCII letters that cannot be made
//! longer. The rules that look at runs take only a run that stands alone:
//! one with no digit and no underscore next to it. Any other character next
//! to a run, one outside ASCII too, bounds it.

use crate::chars::{
    char_is_consonant, char_is_letter, char_is_punctuation, char_is_strict_vowel, char_is_vowel,
    char_is_word_char, char_lower, is_consonant, is_letter, is_punctuation, is_strict_vowel,
    is_vowel, is_word_char, lower,
};
use vstd::prelude::*;

verus! {

/// The character-level rules, in the order in which they are tried.
#[derive(Clone, Copy, Debug, PartialEq, Eq, Structural)]
pub enum Rule {
    /// The first of two equal letters in a row, case aside.
    DoubleLetter,
    /// A vowel inside a run of letters: neither its first nor its last.
    InnerVowel,
    /// A vowel (not `y`) that ends a run of two letters or more.
    TrailingVowel,
    /// A consonant inside a run of letters.
    InnerConsonant,
    /// One of `.`, `,`, `!`, `?`, `:`.
    Punctuation,
}

/// Where the run of letters around position `i` begins.
pub open spec fn run_start(s: Seq<char>, i: int) -> int
    decreases i,
{
    if 0 < i <= s.len() && is_letter(s[i - 1]) {
        run_start(s, i - 1)
    } else {
        i
    }
}

/// Where the run of letters from position `i` on ends (one past its last letter).
pub open spec fn run_end(s: Seq<char>, i: int) -> int
    decreases s.len() - i,
{
    if 0 <= i < s.len() && is_letter(s[i]) {
        run_end(s, i + 1)
    } else {
        i
    }
}

/// A run of letters from `a` up to `b` stands alone: no digit or underscore
/// touches it on either side.
pub open spec fn stands_alone(s: Seq<char>, a: int, b: int) -> bool {
    &&& a <= 0 || !is_word_char(s[a - 1])
    &&& b >= s.len() || !is_word_char(s[b])
}

/// Position `i` is inside a run of letters that stands alone, with a letter
/// of the run before it and one after it.
pub open spec fn is_inner(s: Seq<char>, i: int) -> bool {
    &&& run_start(s, i) < i
    &&& i + 1 < run_end(s, i)
    &&& stands_alone(s, run_start(s, i), run_end(s, i))
}

/// Position `i` ends a run of at least two letters that stands alone.
pub open spec fn is_trailing(s: Seq<char>, i: int) -> bool {
    &&& run_start(s, i) < i
    &&& run_end(s, i) == i + 1
    &&& stands_alone(s, run_start(s, i), i + 1)
}

/// Whether `rule` matches the text `s` at position `i`.
pub open spec fn matches_at(rule: Rule, s: Seq<char>, i: int) -> bool {
    &&& 0 <= i < s.len()
    &&& match rule {
        Rule::DoubleLetter => i + 1 < s.len() && is_letter(s[i]) && lower(s[i]) == lower(s[i + 1]),
        Rule::InnerVowel => is_vowel(s[i]) && is_inner(s, i),
        Rule::TrailingVowel => is_strict_vowel(s[i]) && is_trailing(s, i),
        Rule::InnerConsonant => is_consonant(s[i]) && is_inner(s, i),
        Rule::Punctuation => is_punctuation(s[i]),
    }
}

/// The first position from `from` on at which `rule` matches, if any.
pub open spec fn first_match_from(rule: Rule, s: Seq<char>, from: int) -> Option<int>
    decreases s.len() - from,
{
    if from < 0 || from >= s.len() {
        None
    } else if matches_at(rule, s, from) {
        Some(from)
    } else {
        first_match_from(rule, s, from + 1)
    }
}

/// The first position at which `rule` matches, if any.
pub open spec fn first_match(rule: Rule, s: Seq<char>) -> Option<int> {
    first_match_from(rule, s, 0)
}

/// A stretch without a match can be skipped.
pub proof fn lemma_skip(rule: Rule, s: Seq<char>, from: int, to: int)
    requires
        0 <= from <= to <= s.len(),
        forall|j: int| from <= j < to ==> !matches_at(rule, s, j),
    ensures
        first_match_from(rule, s, from) == first_match_from(rule, s, to),
    decreases to - from,
{
    if from < to {
        lemma_skip(rule, s, from + 1, to);
    }
}

/// `first_match_from` finds the least matching position at or after `from`.
pub proof fn lemma_first_match_from_is_least(rule: Rule, s: Seq<char>, from: int)
    requires
        0 <= from,
    ensures
        match first_match_from(rule, s, from) {
            Some(i) => from <= i < s.len() && matches_at(rule, s, i) && forall|j: int|
                from <= j < i ==> !matches_at(rule, s, j),
            None => forall|j: int| from <= j ==> !matches_at(rule, s, j),
        },
    decreases s.len() - from,
{
    if from < s.len() && !matches_at(rule, s, from) {
        lemma_first_match_from_is_least(rule, s, from + 1);
    }
}

/// A match is the least matching position; there is none only where no
/// position matches.
pub proof fn lemma_first_match_is_least(rule: Rule, s: Seq<char>)
    ensures
        match first_match(rule, s) {
            Some(i) => 0 <= i < s.len() && matches_at(rule, s, i) && forall|j: int|
                0 <= j < i ==> !matches_at(rule, s, j),
            None => forall|j: int| !matches_at(rule, s, j),
        },
{
    lemma_first_match_from_is_least(rule, s, 0);
}

/// A run of letters that begins at `a` begins there for each of its positions.
proof fn lemma_run_start(s: Seq<char>, a: int, j: int)
    requires
        0 <= a <= j <= s.len(),
        forall|k: int| a <= k < j ==> is_letter(s[k]),
        a == 0 || !is_letter(s[a - 1]),
    ensures
        run_start(s, j) == a,
    decreases j - a,
{
    if a < j {
        lemma_run_start(s, a, j - 1);
    }
}

/// A run of letters that ends at `b` ends there for each of its positions.
proof fn lemma_run_end(s: Seq<char>, j: int, b: int)
    requires
        0 <= j <= b <= s.len(),
        forall|k: int| j <= k < b ==> is_letter(s[k]),
        b == s.len() || !is_letter(s[b]),
    ensures
        run_end(s, j) == b,
    decreases b - j,
{
    if j < b {
        lemma_run_end(s, j + 1, b);
    }
}

/// Every position of a maximal run of letters sees the same run.
proof fn lemma_run(s: Seq<char>, a: int, b: int)
    requires
        0 <= a < b <= s.len(),
        forall|k: int| a <= k < b ==> is_letter(s[k]),
        a == 0 || !is_letter(s[a - 1]),
        b == s.len() || !is_letter(s[b]),
    ensures
        forall|j: int| a <= j < b ==> run_start(s, j) == a && run_end(s, j) == b,
{
    assert forall|j: int| a <= j < b implies run_start(s, j) == a && run_end(s, j) == b by {
        lemma_run_start(s, a, j);
        lemma_run_end(s, j, b);
    }
}

/// The exec form of a position found by a scan.
pub open spec fn as_position(r: Option<usize>) -> Option<int> {
    match r {
        Some(i) => Some(i as int),
        None => None,
    }
}

/// Finds the first pair of equal letters, case aside.
pub fn find_double_letter(s: &Vec<char>) -> (r: Option<usize>)
    ensures
        as_position(r) == first_match(Rule::DoubleLetter, s@),
{
    let n = s.len();
    let mut i: usize = 0;
    while i < n
        invariant
            i <= n == s@.len(),
            first_match(Rule::DoubleLetter, s@) == first_match_from(Rule::DoubleLetter, s@, i as int),
        decreases n - i,
    {
        if i + 1 < n && char_is_letter(s[i]) && char_lower(s[i]) == char_lower(s[i + 1]) {
            return Some(i);
        }
        i += 1;
    }
    None
}

/// Finds the first punctuation mark.
pub fn find_punctuation(s: &Vec<char>) -> (r: Option<usize>)
    ensures
        as_position(r) == first_match(Rule::Punctuation, s@),
{
    let n = s.len();
    let mut i: usize = 0;
    while i < n
        invariant
            i <= n == s@.len(),
            first_match(Rule::Punctuation, s@) == first_match_from(Rule::Punctuation, s@, i as int),
        decreases n - i,
    {
        if char_is_punctuation(s[i]) {
            return Some(i);
        }
        i += 1;
    }
    None
}

/// Whether `rule` accepts the character itself, its place in a run aside.
fn accepts(rule: Rule, c: char) -> (r: bool)
    ensures
        r == match rule {
            Rule::InnerVowel => is_vowel(c),
            Rule::TrailingVowel => is_strict_vowel(c),
            Rule::InnerConsonant => is_consonant(c),
            _ => false,
        },
{
    match rule {
        Rule::InnerVowel => char_is_vowel(c),
        Rule::TrailingVowel => char_is_strict_vowel(c),
        Rule::InnerConsonant => char_is_consonant(c),
        _ => false,
    }
}

/// Looks through the run of letters from `a` up to `b` for the first match
/// of `rule`.
fn find_in_run(s: &Vec<char>, rule: Rule, a: usize, b: usize) -> (r: Option<usize>)
    requires
        rule == Rule::InnerVowel || rule == Rule::TrailingVowel || rule == Rule::InnerConsonant,
        0 <= a < b <= s@.len(),
        forall|k: int| a <= k < b ==> is_letter(s@[k]),
        a == 0 || !is_letter(s@[a - 1]),
        b == s@.len() || !is_letter(s@[b as int]),
    ensures
        match r {
            Some(i) => a <= i < b && matches_at(rule, s@, i as int) && forall|j: int|
                a <= j < i ==> !matches_at(rule, s@, j),
            None => forall|j: int| a <= j < b ==> !matches_at(rule, s@, j),
        },
{
    proof {
        lemma_run(s@, a as int, b as int);
    }
    let left_free = a == 0 || !char_is_word_char(s[a - 1]);
    let right_free = b == s.len() || !char_is_word_char(s[b]);
    if !(left_free && right_free) {
        return None;
    }
    match rule {
        Rule::TrailingVowel => {
            if b - a >= 2 && accepts(rule, s[b - 1]) {
                Some(b - 1)
            } else {
                None
            }
        },
        _ => {
            let mut j: usize = a + 1;
            while j < b - 1
                invariant
                    a < j <= b,
                    b <= s@.len(),
                    rule == Rule::InnerVowel || rule == Rule::InnerConsonant,
                    forall|k: int| a <= k < b ==> run_start(s@, k) == a && run_end(s@, k) == b,
                    stands_alone(s@, a as int, b as int),
                    forall|k: int| a <= k < j ==> !matches_at(rule, s@, k),
                decreases b - j,
            {
                if accepts(rule, s[j]) {
                    return Some(j);
                }
                j += 1;
            }
            None
        },
    }
}

/// Finds the first match of one of the rules that look at runs of letters.
fn find_in_runs(s: &Vec<char>, rule: Rule) -> (r: Option<usize>)
    requires
        rule == Rule::InnerVowel || rule == Rule::TrailingVowel || rule == Rule::InnerConsonant,
    ensures
        as_position(r) == first_match(rule, s@),
{
    let n = s.len();
    let mut i: usize = 0;
    while i < n
        invariant
            i <= n == s@.len(),
            rule == Rule::InnerVowel || rule == Rule::TrailingVowel || rule == Rule::InnerConsonant,
            first_match(rule, s@) == first_match_from(rule, s@, i as int),
            i == 0 || i == n || !is_letter(s@[i - 1]) || !is_letter(s@[i as int]),
        decreases n - i,
    {
        if !char_is_letter(s[i]) {
            i += 1;
        } else {
            let a = i;
            let mut b: usize = i + 1;
            while b < n && char_is_letter(s[b])
                invariant
                    a < b <= n == s@.len(),
                    forall|k: int| a <= k < b ==> is_letter(s@[k]),
                decreases n - b,
            {
                b += 1;
            }
            match find_in_run(s, rule, a, b) {
                Some(j) => {
                    proof {
                        lemma_skip(rule, s@, a as int, j as int);
                    }
                    return Some(j);
                },
                None => {
                    proof {
                        lemma_skip(rule, s@, a as int, b as int);
                    }
                    i = b;
                },
            }
        }
    }
    None
}

/// Finds the first position at which `rule` matches.
pub fn find_first(s: &Vec<char>, rule: Rule) -> (r: Option<usize>)
    ensures
        as_position(r) == first_match(rule, s@),
{
    match rule {
        Rule::DoubleLetter => find_double_letter(s),
        Rule::Punctuation => find_punctuation(s),
        _ => find_in_runs(s, rule),
    }
}

} // verus!
