//! The scheduling loop: which word is shortened next, and when it stops.
//!
//! The word with the highest priority goes first. Of words with the same
//! priority the one that stands first in the input goes first.

use crate::chars::byte_len;
use crate::queue::{key_le, queue_entries, queue_new, queue_pop, queue_push};
use crate::tokens::{all_wf, lemma_render_all_update, models, render_all};
use crate::word::{
    lemma_rendered_size, lemma_shortened_size, priority_of, saved, shortened, Word, WordModel,
};
use priority_queue::PriorityQueue;
use vstd::prelude::*;
use vstd::set_lib::{lemma_int_range, set_int_range};

verus! {

/// The word at `i` is served no later than the word at `j`.
pub open spec fn goes_before(words: Seq<WordModel>, i: int, j: int) -> bool {
    let a = priority_of(words[i].text);
    let b = priority_of(words[j].text);
    a > b || (a == b && i <= j)
}

/// Of the words that wait, the one at `i` is served next.
pub open spec fn is_next(words: Seq<WordModel>, waiting: Set<int>, i: int) -> bool {
    waiting.contains(i) && forall|j: int| waiting.contains(j) ==> goes_before(words, i, j)
}

/// The place of the word that is served next.
pub open spec fn next_word(words: Seq<WordModel>, waiting: Set<int>) -> int {
    choose|i: int| is_next(words, waiting, i)
}

/// The waiting places are finitely many places of `n` words.
pub open spec fn in_range(waiting: Set<int>, n: int) -> bool {
    waiting.finite() && forall|i: int| waiting.contains(i) ==> 0 <= i < n
}

/// The words after the scheduling loop has run.
///
/// `waiting` holds the places of the words that may still get shorter and
/// `total` is the running size. While the size is above the target and a
/// word waits, the next word is shortened by one step. If that saved
/// something, the size goes down by it and the word waits again; if not,
/// the word no longer waits.
pub open spec fn scheduled(
    words: Seq<WordModel>,
    waiting: Set<int>,
    total: int,
    target: int,
) -> Seq<WordModel>
    decreases byte_len(render_all(words)) + waiting.len(),
    when in_range(waiting, words.len() as int)
    via scheduled_decreases
{
    if total <= target || waiting.is_empty() {
        words
    } else {
        let i = next_word(words, waiting);
        let w = shortened(words[i]);
        if saved(words[i]) > 0 {
            scheduled(words.update(i, w), waiting, total - saved(words[i]), target)
        } else {
            scheduled(words.update(i, w), waiting.remove(i), total, target)
        }
    }
}

#[via_fn]
proof fn scheduled_decreases(words: Seq<WordModel>, waiting: Set<int>, total: int, target: int) {
    if !(total <= target || waiting.is_empty()) {
        lemma_next_exists(words, waiting);
        let i = next_word(words, waiting);
        lemma_step_size(words, i);
    }
}

/// Among finitely many waiting words one is served next.
pub proof fn lemma_next_exists(words: Seq<WordModel>, waiting: Set<int>)
    requires
        waiting.finite(),
        !waiting.is_empty(),
    ensures
        is_next(words, waiting, next_word(words, waiting)),
    decreases waiting.len(),
{
    let x = waiting.choose();
    let rest = waiting.remove(x);
    if rest.is_empty() {
        assert forall|j: int| waiting.contains(j) implies goes_before(words, x, j) by {
            if j != x {
                assert(rest.contains(j));
            }
        }
        assert(is_next(words, waiting, x));
    } else {
        lemma_next_exists(words, rest);
        let m = next_word(words, rest);
        let best = if goes_before(words, x, m) {
            x
        } else {
            m
        };
        assert forall|j: int| waiting.contains(j) implies goes_before(words, best, j) by {
            if j != x {
                assert(rest.contains(j));
                assert(goes_before(words, m, j));
            }
        }
        assert(is_next(words, waiting, best));
    }
}

/// No two words are both served next.
pub proof fn lemma_next_unique(words: Seq<WordModel>, waiting: Set<int>, i: int)
    requires
        is_next(words, waiting, i),
    ensures
        next_word(words, waiting) == i,
{
    let n = next_word(words, waiting);
    assert(is_next(words, waiting, n));
    assert(goes_before(words, n, i));
    assert(goes_before(words, i, n));
}

/// One step on the word at `i` takes off the whole text at least what it
/// reports, and the word's text is part of the whole.
pub proof fn lemma_step_size(words: Seq<WordModel>, i: int)
    requires
        0 <= i < words.len(),
    ensures
        byte_len(render_all(words.update(i, shortened(words[i])))) + saved(words[i]) <= byte_len(
            render_all(words),
        ),
        byte_len(words[i].text) <= byte_len(render_all(words)),
{
    lemma_render_all_update(words, i, shortened(words[i]));
    lemma_shortened_size(words[i]);
    lemma_rendered_size(words[i]);
    lemma_rendered_size(shortened(words[i]));
    let nothing = WordModel { text: Seq::empty(), trailing: 0, order: 0 };
    lemma_render_all_update(words, i, nothing);
    lemma_rendered_size(nothing);
}

/// The scheduling loop keeps the number of words and never makes what is
/// written out larger.
pub proof fn lemma_scheduled_size(
    words: Seq<WordModel>,
    waiting: Set<int>,
    total: int,
    target: int,
)
    requires
        in_range(waiting, words.len() as int),
    ensures
        scheduled(words, waiting, total, target).len() == words.len(),
        byte_len(render_all(scheduled(words, waiting, total, target))) <= byte_len(
            render_all(words),
        ),
    decreases byte_len(render_all(words)) + waiting.len(),
{
    if !(total <= target || waiting.is_empty()) {
        lemma_next_exists(words, waiting);
        let i = next_word(words, waiting);
        lemma_step_size(words, i);
        let w = shortened(words[i]);
        if saved(words[i]) > 0 {
            lemma_scheduled_size(words.update(i, w), waiting, total - saved(words[i]), target);
        } else {
            lemma_scheduled_size(words.update(i, w), waiting.remove(i), total, target);
        }
    }
}

/// The key under which the word at `i` waits in the queue: its priority,
/// then its distance from the end of the range of places, so that of two
/// words of the same priority the earlier has the greater key.
pub open spec fn key_for(words: Seq<WordModel>, i: int) -> (usize, usize) {
    (priority_of(words[i].text) as usize, (usize::MAX - i) as usize)
}

/// The queue holds exactly the waiting places, each under its key.
pub open spec fn queue_holds(
    q: PriorityQueue<usize, (usize, usize)>,
    words: Seq<WordModel>,
    waiting: Set<int>,
) -> bool {
    &&& forall|u: usize| #[trigger] queue_entries(q).contains_key(u) <==> waiting.contains(u as int)
    &&& forall|u: usize| #[trigger]
        queue_entries(q).contains_key(u) ==> queue_entries(q)[u] == key_for(words, u as int)
            && priority_of(words[u as int].text) <= usize::MAX
}

/// The key of a word at a place.
fn key_of(word: &Word, place: usize) -> (key: (usize, usize))
    requires
        word.wf(),
    ensures
        key == (priority_of(word@.text) as usize, (usize::MAX - place) as usize),
        priority_of(word@.text) <= usize::MAX,
{
    (word.priority(), usize::MAX - place)
}

/// Runs the scheduling loop on the words, with `total` as the size they
/// start from.
pub fn schedule(words: &mut Vec<Word>, total: usize, target: usize)
    requires
        all_wf(old(words)@),
        byte_len(render_all(models(old(words)@))) <= total,
    ensures
        all_wf(final(words)@),
        models(final(words)@) == scheduled(
            models(old(words)@),
            set_int_range(0, old(words)@.len() as int),
            total as int,
            target as int,
        ),
{
    let n = words.len();
    let ghost start = models(words@);
    let ghost everything = set_int_range(0, n as int);
    proof {
        lemma_int_range(0, n as int);
    }
    let mut q = queue_new();
    let mut i: usize = 0;
    while i < n
        invariant
            i <= n == words@.len(),
            all_wf(words@),
            models(words@) == start,
            queue_holds(q, start, set_int_range(0, i as int)),
        decreases n - i,
    {
        let key = key_of(&words[i], i);
        queue_push(&mut q, i, key);
        i += 1;
    }
    let ghost mut waiting = everything;
    let mut running = total;
    let mut more = true;
    while more && running > target
        invariant
            n == words@.len() == start.len(),
            all_wf(words@),
            in_range(waiting, n as int),
            queue_holds(q, models(words@), waiting),
            byte_len(render_all(models(words@))) <= running,
            !more ==> waiting.is_empty(),
            scheduled(start, everything, total as int, target as int) == scheduled(
                models(words@),
                waiting,
                running as int,
                target as int,
            ),
        decreases byte_len(render_all(models(words@))) + waiting.len(), if more { 1int } else { 0int },
    {
        let ghost before = models(words@);
        let ghost held = queue_entries(q);
        match queue_pop(&mut q) {
            None => {
                proof {
                    assert forall|j: int| !waiting.contains(j) by {
                        if waiting.contains(j) {
                            assert(held.contains_key(j as usize));
                        }
                    }
                    assert(waiting =~= Set::<int>::empty());
                }
                more = false;
            },
            Some((place, key)) => {
                proof {
                    assert(held.contains_key(place));
                    assert(waiting.contains(place as int));
                    assert forall|j: int| waiting.contains(j) implies goes_before(
                        before,
                        place as int,
                        j,
                    ) by {
                        assert(held.contains_key(j as usize));
                        assert(key_le(held[j as usize], key));
                    }
                    lemma_next_unique(before, waiting, place as int);
                    lemma_step_size(before, place as int);
                }
                let removed = words[place].shorten();
                proof {
                    assert(models(words@) =~= before.update(
                        place as int,
                        shortened(before[place as int]),
                    ));
                }
                if removed > 0 {
                    running = running - removed;
                    let key = key_of(&words[place], place);
                    queue_push(&mut q, place, key);
                } else {
                    proof {
                        waiting = waiting.remove(place as int);
                    }
                }
            },
        }
    }
}

} // verus!
