//! What holds of crunching as a whole.

use crate::chars::{byte_len, is_punctuation, lemma_byte_len_concat, upper};
use crate::rules::{first_match, lemma_first_match_is_least, matches_at, Rule};
use crate::schedule::{
    in_range, lemma_next_exists, lemma_scheduled_size, lemma_step_size, next_word, scheduled,
};
use crate::substitutions::{lemma_ascii_byte_len, lemma_substitute_saves, substitute};
use crate::tokens::{
    initials, joined, lemma_render_all_size, lemma_tokens_join, lemma_words_of_size, render_all,
    tokens, words_of,
};
use crate::word::{
    initial, lemma_initial_size, lemma_rendered_size, lemma_shortened_size, new_model, removal,
    saved, shortened, WordModel, INITIAL_THRESHOLD,
};
use crate::{candidate, crunched, settled};
use vstd::prelude::*;
use vstd::set_lib::{lemma_int_range, set_int_range};

verus! {

/// The word after `steps` steps of shortening.
pub open spec fn shortened_times(w: WordModel, steps: nat) -> WordModel
    decreases steps,
{
    if steps == 0 {
        w
    } else {
        shortened_times(shortened(w), (steps - 1) as nat)
    }
}

/// `result` is `w` after some number of steps of shortening.
pub open spec fn is_shortening_of(result: WordModel, w: WordModel) -> bool {
    exists|steps: nat| result == #[trigger] shortened_times(w, steps)
}

/// A word never grows and never changes its place: after any number of
/// steps its text and its trailing whitespace are no larger than before.
pub proof fn law_word_never_grows(w: WordModel, steps: nat)
    ensures
        byte_len(shortened_times(w, steps).text) <= byte_len(w.text),
        shortened_times(w, steps).trailing <= w.trailing,
        shortened_times(w, steps).order == w.order,
    decreases steps,
{
    if steps > 0 {
        lemma_shortened_size(w);
        law_word_never_grows(shortened(w), (steps - 1) as nat);
    }
}

/// A text that is within the target comes back as it is.
pub proof fn law_within_target_is_unchanged(input: Seq<char>, target: nat)
    requires
        byte_len(input) <= target,
    ensures
        crunched(input, target) == input,
{
}

/// The acronym of some words is no larger than the words written out.
pub proof fn lemma_initials_size(words: Seq<WordModel>)
    ensures
        byte_len(initials(words)) <= byte_len(render_all(words)),
    decreases words.len(),
{
    if words.len() > 0 {
        lemma_initials_size(words.drop_last());
        lemma_render_all_size(words);
        lemma_byte_len_concat(initials(words.drop_last()), initial(words.last().text));
        lemma_initial_size(words.last().text);
        lemma_rendered_size(words.last());
    }
}

/// The result is never larger than the input, whatever the target.
pub proof fn law_never_longer(input: Seq<char>, target: nat)
    ensures
        byte_len(crunched(input, target)) <= byte_len(input),
{
    let words = words_of(input);
    lemma_words_of_size(input);
    lemma_int_range(0, words.len() as int);
    lemma_scheduled_size(
        words,
        set_int_range(0, words.len() as int),
        byte_len(input) as int,
        target as int,
    );
    lemma_initials_size(settled(input, target));
}

/// A word on which a step saves nothing stays so: no further step saves
/// anything.
pub proof fn lemma_stuck_stays_stuck(w: WordModel)
    requires
        saved(w) == 0,
    ensures
        saved(shortened(w)) == 0,
{
    if substitute(w.text) is Some {
        lemma_substitute_saves(w.text);
    }
    if byte_len(w.text) <= INITIAL_THRESHOLD {
        let t = initial(w.text);
        if substitute(t) is Some {
            lemma_substitute_saves(t);
            lemma_ascii_byte_len(t);
        }
        lemma_first_match_is_least(Rule::DoubleLetter, t);
        lemma_first_match_is_least(Rule::InnerVowel, t);
        lemma_first_match_is_least(Rule::TrailingVowel, t);
        lemma_first_match_is_least(Rule::InnerConsonant, t);
        lemma_first_match_is_least(Rule::Punctuation, t);
        if first_match(Rule::Punctuation, t) is Some {
            assert(is_punctuation(upper(w.text[0])));
            assert(matches_at(Rule::Punctuation, w.text, 0));
            lemma_first_match_is_least(Rule::Punctuation, w.text);
        }
        assert(removal(t) is None);
    }
}

/// No step saves anything on any of the words.
pub open spec fn all_stuck(words: Seq<WordModel>) -> bool {
    forall|i: int| 0 <= i < words.len() ==> saved(#[trigger] words[i]) == 0
}

/// When the scheduling loop ends, either what it leaves fits the target
/// or no step saves anything on any word.
pub proof fn lemma_scheduled_until_stuck(
    words: Seq<WordModel>,
    waiting: Set<int>,
    total: int,
    target: int,
)
    requires
        in_range(waiting, words.len() as int),
        byte_len(render_all(words)) <= total,
        forall|i: int|
            0 <= i < words.len() && !waiting.contains(i) ==> saved(#[trigger] words[i]) == 0,
    ensures
        byte_len(render_all(scheduled(words, waiting, total, target))) <= target || all_stuck(
            scheduled(words, waiting, total, target),
        ),
    decreases byte_len(render_all(words)) + waiting.len(),
{
    let result = scheduled(words, waiting, total, target);
    if total <= target {
        assert(result == words);
    } else if waiting.is_empty() {
        assert(result == words);
        assert forall|i: int| 0 <= i < words.len() implies saved(#[trigger] words[i]) == 0 by {
            assert(!waiting.contains(i));
        }
    } else {
        lemma_next_exists(words, waiting);
        let j = next_word(words, waiting);
        lemma_step_size(words, j);
        let after = words.update(j, shortened(words[j]));
        if saved(words[j]) > 0 {
            assert(result == scheduled(after, waiting, total - saved(words[j]), target));
            assert forall|i: int| 0 <= i < after.len() && !waiting.contains(i) implies saved(
                #[trigger] after[i],
            ) == 0 by {
                assert(after[i] == words[i]);
            }
            lemma_scheduled_until_stuck(after, waiting, total - saved(words[j]), target);
        } else {
            assert(result == scheduled(after, waiting.remove(j), total, target));
            lemma_stuck_stays_stuck(words[j]);
            assert forall|i: int|
                0 <= i < after.len() && !waiting.remove(j).contains(i) implies saved(
                #[trigger] after[i],
            ) == 0 by {
                if i != j {
                    assert(after[i] == words[i]);
                    assert(!waiting.contains(i));
                }
            }
            lemma_scheduled_until_stuck(after, waiting.remove(j), total, target);
        }
    }
}

/// The target is met wherever the rules reach it: a result that is larger
/// than the target is the acronym of words on none of which a further
/// step would save anything.
pub proof fn law_best_effort(input: Seq<char>, target: nat)
    requires
        byte_len(crunched(input, target)) > target,
    ensures
        crunched(input, target) == initials(settled(input, target)),
        all_stuck(settled(input, target)),
{
    let words = words_of(input);
    let everything = set_int_range(0, words.len() as int);
    lemma_words_of_size(input);
    lemma_int_range(0, words.len() as int);
    lemma_scheduled_size(words, everything, byte_len(input) as int, target as int);
    lemma_scheduled_until_stuck(words, everything, byte_len(input) as int, target as int);
    lemma_initials_size(settled(input, target));
}

/// Crunching a result that is within the target again changes nothing.
pub proof fn law_idempotent_within_target(input: Seq<char>, target: nat)
    requires
        byte_len(crunched(input, target)) <= target,
    ensures
        crunched(crunched(input, target), target) == crunched(input, target),
{
}

/// The scheduling loop leaves each word at its place, shortened by some
/// number of steps.
pub proof fn lemma_scheduled_in_place(
    words: Seq<WordModel>,
    waiting: Set<int>,
    total: int,
    target: int,
)
    requires
        in_range(waiting, words.len() as int),
    ensures
        scheduled(words, waiting, total, target).len() == words.len(),
        forall|i: int|
            0 <= i < words.len() ==> is_shortening_of(
                #[trigger] scheduled(words, waiting, total, target)[i],
                words[i],
            ),
    decreases byte_len(render_all(words)) + waiting.len(),
{
    let result = scheduled(words, waiting, total, target);
    if total <= target || waiting.is_empty() {
        assert forall|i: int| 0 <= i < words.len() implies is_shortening_of(
            #[trigger] result[i],
            words[i],
        ) by {
            assert(result[i] == shortened_times(words[i], 0));
        }
    } else {
        lemma_next_exists(words, waiting);
        let j = next_word(words, waiting);
        lemma_step_size(words, j);
        let after = words.update(j, shortened(words[j]));
        if saved(words[j]) > 0 {
            lemma_scheduled_in_place(after, waiting, total - saved(words[j]), target);
        } else {
            lemma_scheduled_in_place(after, waiting.remove(j), total, target);
        }
        assert forall|i: int| 0 <= i < words.len() implies is_shortening_of(
            #[trigger] result[i],
            words[i],
        ) by {
            assert(is_shortening_of(result[i], after[i]));
            let k = choose|steps: nat| result[i] == #[trigger] shortened_times(after[i], steps);
            if i == j {
                assert(result[i] == shortened_times(words[i], k + 1));
            } else {
                assert(result[i] == shortened_times(words[i], k));
            }
        }
    }
}

/// The order of the input is kept: the tokens put together are the input,
/// and the words that the result is made of are the words of the tokens,
/// each at its place and shortened by some number of steps. The result is
/// these words written out one after the other, or their acronym.
pub proof fn law_order_is_kept(input: Seq<char>, target: nat)
    ensures
        joined(tokens(input)) == input,
        words_of(input).len() == tokens(input).len(),
        settled(input, target).len() == tokens(input).len(),
        forall|i: int|
            0 <= i < tokens(input).len() ==> words_of(input)[i] == new_model(
                #[trigger] tokens(input)[i],
                i as nat,
            ),
        forall|i: int|
            0 <= i < tokens(input).len() ==> is_shortening_of(
                #[trigger] settled(input, target)[i],
                words_of(input)[i],
            ),
        candidate(input, target) == render_all(settled(input, target)),
        byte_len(input) > target ==> crunched(input, target) == candidate(input, target)
            || crunched(input, target) == initials(settled(input, target)),
{
    let words = words_of(input);
    lemma_tokens_join(input);
    lemma_int_range(0, words.len() as int);
    lemma_scheduled_in_place(
        words,
        set_int_range(0, words.len() as int),
        byte_len(input) as int,
        target as int,
    );
}

} // verus!
