//! Shortens a string towards a target length in bytes.
//!
//! The text is cut into words. The longest word is shortened first, one
//! step at a time: a known word gives way to its shorter form, a doubled
//! letter to a single one, then vowels, consonants and punctuation go.
//! Of words of the same priority the earlier one goes first. Where that
//! does not reach the target, the initials of what is left are returned.
//!
//! [`crunch`] is the entry point and [`crunched`] says what it returns.
//! The module `laws` holds what is proved of it for every input.

/// Character classes and sizes.
pub mod chars;
/// What is proved of crunching for every input.
pub mod laws;
/// The priority queue that the scheduling loop runs on.
pub mod queue;
/// The character-level rules.
pub mod rules;
/// The scheduling loop.
pub mod schedule;
/// The kinds of tracked session.
pub mod session;
/// The table of shorter forms.
pub mod substitutions;
/// Strings and sequences of characters.
pub mod text;
/// Cutting a text into words and writing words out.
pub mod tokens;
/// A word and its steps.
pub mod word;

use crate::chars::byte_len;
use crate::laws::law_never_longer;
use crate::schedule::{lemma_scheduled_size, schedule, scheduled};
use crate::text::{byte_size, chars_of, string_of};
use crate::tokens::{
    initials, lemma_words_of_size, make_acronym, render_all, render_words, split_words,
    text_size, words_of,
};
use crate::word::WordModel;
use vstd::prelude::*;
use vstd::set_lib::{lemma_int_range, set_int_range};

verus! {

/// The words of a text that is larger than the target, as the scheduling
/// loop leaves them.
pub open spec fn settled(input: Seq<char>, target: nat) -> Seq<WordModel> {
    let words = words_of(input);
    scheduled(words, set_int_range(0, words.len() as int), byte_len(input) as int, target as int)
}

/// What the scheduling loop makes of a text that is larger than the
/// target: its words, shortened, written out in their order.
pub open spec fn candidate(input: Seq<char>, target: nat) -> Seq<char> {
    render_all(settled(input, target))
}

/// The result of crunching `input` towards `target` bytes.
///
/// A text within the target stays as it is. A larger one goes through the
/// scheduling loop; if what comes out is still larger than the target, the
/// acronym of its words is the result, whatever its size.
pub open spec fn crunched(input: Seq<char>, target: nat) -> Seq<char> {
    if byte_len(input) <= target {
        input
    } else if byte_len(candidate(input, target)) <= target {
        candidate(input, target)
    } else {
        initials(settled(input, target))
    }
}

/// Makes `input` as short as it takes to fit into `target` bytes, as far as
/// the rules reach.
///
/// An input within the target is returned as it is, and no result is
/// larger than its input.
pub fn crunch(input: &str, target: usize) -> (out: String)
    ensures
        out@ == crunched(input@, target as nat),
        byte_len(input@) <= target ==> out@ == input@,
        byte_len(out@) <= byte_len(input@),
{
    proof {
        law_never_longer(input@, target as nat);
    }
    let total = byte_size(input);
    if total <= target {
        return input.to_owned();
    }
    let chars = chars_of(input);
    let mut words = split_words(&chars);
    proof {
        lemma_words_of_size(chars@);
        lemma_int_range(0, words@.len() as int);
        lemma_scheduled_size(
            words_of(chars@),
            set_int_range(0, words@.len() as int),
            total as int,
            target as int,
        );
    }
    schedule(&mut words, total, target);
    let candidate = render_words(&words);
    if text_size(&candidate) <= target {
        string_of(&candidate)
    } else {
        let acronym = make_acronym(&words);
        string_of(&acronym)
    }
}

} // verus!
