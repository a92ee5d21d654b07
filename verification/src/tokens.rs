//! Cutting the input into words, and putting words back into a text.

use crate::chars::{
    byte_len, char_is_whitespace, char_width, is_whitespace, lemma_byte_len_concat, utf8_width,
};
use crate::word::{
    initial, lemma_byte_len_take, lemma_rendered_size, new_model, rendered, stripped, Word,
    WordModel,
};
use vstd::prelude::*;

verus! {

/// The token that is still open at the end of `s`: what follows the last
/// whitespace character.
pub open spec fn open_token(s: Seq<char>) -> Seq<char>
    decreases s.len(),
{
    if s.len() == 0 || is_whitespace(s.last()) {
        Seq::empty()
    } else {
        open_token(s.drop_last()).push(s.last())
    }
}

/// The tokens of `s` that a whitespace character has ended; each holds
/// that character as its last.
pub open spec fn closed_tokens(s: Seq<char>) -> Seq<Seq<char>>
    decreases s.len(),
{
    if s.len() == 0 {
        Seq::empty()
    } else if is_whitespace(s.last()) {
        closed_tokens(s.drop_last()).push(open_token(s.drop_last()).push(s.last()))
    } else {
        closed_tokens(s.drop_last())
    }
}

/// The tokens of `s`: it is cut after each whitespace character, and what
/// is left at the end, if anything, is the last token.
pub open spec fn tokens(s: Seq<char>) -> Seq<Seq<char>> {
    if open_token(s).len() > 0 {
        closed_tokens(s).push(open_token(s))
    } else {
        closed_tokens(s)
    }
}

/// The words that the given tokens make, each at its place.
pub open spec fn words_from(tokens: Seq<Seq<char>>) -> Seq<WordModel> {
    Seq::new(tokens.len(), |i: int| new_model(tokens[i], i as nat))
}

/// The words of a text.
pub open spec fn words_of(s: Seq<char>) -> Seq<WordModel> {
    words_from(tokens(s))
}

/// The models of the given words.
pub open spec fn models(words: Seq<Word>) -> Seq<WordModel> {
    Seq::new(words.len(), |i: int| words[i]@)
}

/// Every word keeps its invariant.
pub open spec fn all_wf(words: Seq<Word>) -> bool {
    forall|i: int| 0 <= i < words.len() ==> (#[trigger] words[i]).wf()
}

/// The words written out one after the other.
pub open spec fn render_all(words: Seq<WordModel>) -> Seq<char>
    decreases words.len(),
{
    if words.len() == 0 {
        Seq::empty()
    } else {
        render_all(words.drop_last()) + rendered(words.last())
    }
}

/// The acronym of the words: the first character of each word that has
/// any text left, in upper case, in the order of the words.
pub open spec fn initials(words: Seq<WordModel>) -> Seq<char>
    decreases words.len(),
{
    if words.len() == 0 {
        Seq::empty()
    } else {
        initials(words.drop_last()) + initial(words.last().text)
    }
}

/// The size of a text grows by the size of a character pushed onto it.
pub proof fn lemma_byte_len_push(s: Seq<char>, c: char)
    ensures
        byte_len(s.push(c)) == byte_len(s) + utf8_width(c),
{
    assert(s.push(c).drop_last() =~= s);
}

/// The words written out take the bytes of all but the last and those of
/// the last.
pub proof fn lemma_render_all_size(words: Seq<WordModel>)
    requires
        words.len() > 0,
    ensures
        byte_len(render_all(words)) == byte_len(render_all(words.drop_last())) + byte_len(
            rendered(words.last()),
        ),
{
    lemma_byte_len_concat(render_all(words.drop_last()), rendered(words.last()));
}

/// Putting another word at a place changes the size of what is written out
/// by the difference between the two.
pub proof fn lemma_render_all_update(words: Seq<WordModel>, i: int, w: WordModel)
    requires
        0 <= i < words.len(),
    ensures
        byte_len(render_all(words.update(i, w))) + byte_len(rendered(words[i])) == byte_len(
            render_all(words),
        ) + byte_len(rendered(w)),
    decreases words.len(),
{
    let changed = words.update(i, w);
    lemma_render_all_size(words);
    lemma_render_all_size(changed);
    if i == words.len() - 1 {
        assert(changed.drop_last() =~= words.drop_last());
    } else {
        assert(changed.drop_last() =~= words.drop_last().update(i, w));
        lemma_render_all_update(words.drop_last(), i, w);
    }
}

/// A further token makes a further word and leaves the others as they are.
pub proof fn lemma_words_from_push(tokens: Seq<Seq<char>>, token: Seq<char>)
    ensures
        words_from(tokens.push(token)) =~= words_from(tokens).push(
            new_model(token, tokens.len()),
        ),
{
}

/// The tokens put together again.
pub open spec fn joined(tokens: Seq<Seq<char>>) -> Seq<char>
    decreases tokens.len(),
{
    if tokens.len() == 0 {
        Seq::empty()
    } else {
        joined(tokens.drop_last()) + tokens.last()
    }
}

/// Cutting a text into tokens loses nothing and keeps the order: the
/// tokens put together are the text.
pub proof fn lemma_tokens_join(s: Seq<char>)
    ensures
        joined(closed_tokens(s)) + open_token(s) == s,
        joined(tokens(s)) == s,
    decreases s.len(),
{
    if s.len() == 0 {
        assert(joined(closed_tokens(s)) + open_token(s) =~= s);
    } else {
        let front = s.drop_last();
        lemma_tokens_join(front);
        if is_whitespace(s.last()) {
            let token = open_token(front).push(s.last());
            assert(closed_tokens(s).drop_last() =~= closed_tokens(front));
            assert(closed_tokens(s).last() == token);
            assert(joined(closed_tokens(s)) =~= joined(closed_tokens(front)) + token);
            assert(joined(closed_tokens(front)) + token =~= (joined(closed_tokens(front))
                + open_token(front)).push(s.last()));
            assert(front.push(s.last()) =~= s);
            assert(joined(closed_tokens(s)) + open_token(s) =~= s);
        } else {
            assert(joined(closed_tokens(s)) + open_token(s) =~= (joined(closed_tokens(front))
                + open_token(front)).push(s.last()));
            assert(front.push(s.last()) =~= s);
        }
    }
    if open_token(s).len() > 0 {
        assert(tokens(s).drop_last() =~= closed_tokens(s));
    } else {
        assert(joined(closed_tokens(s)) + open_token(s) =~= joined(closed_tokens(s)));
    }
}

/// A text has at least one byte for each character.
pub proof fn lemma_byte_len_at_least_len(s: Seq<char>)
    ensures
        byte_len(s) >= s.len(),
    decreases s.len(),
{
    if s.len() > 0 {
        lemma_byte_len_at_least_len(s.drop_last());
    }
}

/// What is left of a token without its trailing whitespace is a beginning
/// of the token.
pub proof fn lemma_stripped_is_prefix(token: Seq<char>)
    ensures
        stripped(token).len() <= token.len(),
        stripped(token) == token.take(stripped(token).len() as int),
    decreases token.len(),
{
    if token.len() > 0 && is_whitespace(token.last()) {
        lemma_stripped_is_prefix(token.drop_last());
        assert(token.drop_last().take(stripped(token).len() as int) =~= token.take(
            stripped(token).len() as int,
        ));
    } else {
        assert(token.take(token.len() as int) =~= token);
    }
}

/// A word written out is no larger than the token that it was made of.
pub proof fn lemma_new_model_size(token: Seq<char>, order: nat)
    ensures
        byte_len(rendered(new_model(token, order))) <= byte_len(token),
{
    let w = new_model(token, order);
    lemma_stripped_is_prefix(token);
    lemma_rendered_size(w);
    let rest = token.skip(w.text.len() as int);
    assert(token =~= w.text + rest);
    lemma_byte_len_concat(w.text, rest);
    lemma_byte_len_at_least_len(rest);
}

/// The words of some tokens, written out, are no larger than the tokens.
pub proof fn lemma_words_from_size(tokens: Seq<Seq<char>>)
    ensures
        byte_len(render_all(words_from(tokens))) <= byte_len(joined(tokens)),
    decreases tokens.len(),
{
    if tokens.len() > 0 {
        let front = tokens.drop_last();
        lemma_words_from_size(front);
        lemma_words_from_push(front, tokens.last());
        assert(front.push(tokens.last()) =~= tokens);
        let words = words_from(tokens);
        assert(words.drop_last() =~= words_from(front));
        lemma_render_all_size(words);
        lemma_new_model_size(tokens.last(), front.len());
        lemma_byte_len_concat(joined(front), tokens.last());
    }
}

/// The words of a text, written out, are no larger than the text.
pub proof fn lemma_words_of_size(s: Seq<char>)
    ensures
        byte_len(render_all(words_of(s))) <= byte_len(s),
{
    lemma_tokens_join(s);
    lemma_words_from_size(tokens(s));
}

/// Cuts the text into its words.
pub fn split_words(chars: &Vec<char>) -> (words: Vec<Word>)
    requires
        byte_len(chars@) <= usize::MAX,
    ensures
        all_wf(words@),
        models(words@) == words_of(chars@),
{
    let mut words: Vec<Word> = Vec::new();
    let mut current: Vec<char> = Vec::new();
    let mut size: usize = 0;
    let mut i: usize = 0;
    while i < chars.len()
        invariant
            i <= chars@.len(),
            byte_len(chars@) <= usize::MAX,
            all_wf(words@),
            models(words@) =~= words_from(closed_tokens(chars@.take(i as int))),
            current@ == open_token(chars@.take(i as int)),
            size == byte_len(current@),
            size <= byte_len(chars@.take(i as int)),
        decreases chars@.len() - i,
    {
        let c = chars[i];
        let ghost before = chars@.take(i as int);
        let ghost after = chars@.take(i + 1);
        let ghost done = words@;
        proof {
            assert(after.drop_last() =~= before);
            assert(after.last() == c);
            lemma_byte_len_take(chars@, i + 1);
            lemma_byte_len_push(current@, c);
        }
        current.push(c);
        size = size + char_width(c);
        if char_is_whitespace(c) {
            let order = words.len();
            let word = Word::from_chars(current, size, order);
            words.push(word);
            current = Vec::new();
            size = 0;
            proof {
                lemma_words_from_push(closed_tokens(before), open_token(before).push(c));
                assert(models(words@) =~= models(done).push(word@));
            }
        } else {
            assert(models(words@) =~= models(done));
        }
        i += 1;
    }
    assert(chars@.take(chars@.len() as int) =~= chars@);
    if current.len() > 0 {
        let ghost done = words@;
        let order = words.len();
        let word = Word::from_chars(current, size, order);
        words.push(word);
        proof {
            lemma_words_from_push(closed_tokens(chars@), open_token(chars@));
            assert(models(words@) =~= models(done).push(word@));
        }
    }
    assert(models(words@) =~= words_of(chars@));
    words
}

/// Writes the words out one after the other.
pub fn render_words(words: &Vec<Word>) -> (out: Vec<char>)
    ensures
        out@ == render_all(models(words@)),
{
    let mut out: Vec<char> = Vec::new();
    let mut i: usize = 0;
    while i < words.len()
        invariant
            i <= words@.len(),
            out@ == render_all(models(words@).take(i as int)),
        decreases words@.len() - i,
    {
        proof {
            let next = models(words@).take(i + 1);
            assert(next.drop_last() =~= models(words@).take(i as int));
            assert(next.last() == words@[i as int]@);
        }
        words[i].render_into(&mut out);
        i += 1;
    }
    assert(models(words@).take(words@.len() as int) =~= models(words@));
    out
}

/// Makes the acronym of the words.
pub fn make_acronym(words: &Vec<Word>) -> (out: Vec<char>)
    ensures
        out@ == initials(models(words@)),
{
    let mut out: Vec<char> = Vec::new();
    let mut i: usize = 0;
    while i < words.len()
        invariant
            i <= words@.len(),
            out@ == initials(models(words@).take(i as int)),
        decreases words@.len() - i,
    {
        proof {
            let next = models(words@).take(i + 1);
            assert(next.drop_last() =~= models(words@).take(i as int));
            assert(next.last() == words@[i as int]@);
        }
        words[i].initial_into(&mut out);
        i += 1;
    }
    assert(models(words@).take(words@.len() as int) =~= models(words@));
    out
}

/// The size of a text in bytes.
pub fn text_size(text: &Vec<char>) -> (n: usize)
    requires
        byte_len(text@) <= usize::MAX,
    ensures
        n == byte_len(text@),
{
    let mut n: usize = 0;
    let mut i: usize = 0;
    while i < text.len()
        invariant
            i <= text@.len(),
            byte_len(text@) <= usize::MAX,
            n == byte_len(text@.take(i as int)),
        decreases text@.len() - i,
    {
        proof {
            assert(text@.take(i + 1).drop_last() =~= text@.take(i as int));
            lemma_byte_len_take(text@, i + 1);
        }
        n = n + char_width(text[i]);
        i += 1;
    }
    assert(text@.take(text@.len() as int) =~= text@);
    n
}

} // verus!
