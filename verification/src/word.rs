//! One word of the input, and the rules by which it gets shorter.

use crate::chars::{
    byte_len, char_is_whitespace, char_upper, char_width, is_letter, is_punctuation,
    is_whitespace, lemma_byte_len_concat, lower, upper, utf8_width,
};
use crate::rules::{
    as_position, find_double_letter, find_first, find_punctuation, first_match,
    lemma_first_match_is_least, matches_at, Rule,
};
use crate::substitutions::{
    find_substitute, lemma_ascii_byte_len, lemma_substitute_saves, substitute,
};
use crate::text::{byte_size, chars_of, string_of};
use vstd::prelude::*;

verus! {

/// What a word is, to the contracts.
pub struct WordModel {
    /// The text that is left of the word.
    pub text: Seq<char>,
    /// How many spaces follow the word when it is written out.
    pub trailing: nat,
    /// The word's place among the words of the input, from zero.
    pub order: nat,
}

/// A token of the input: its text without the whitespace that ended it, the
/// count of that whitespace, and its place in the input.
#[derive(Debug, Hash, PartialEq, Eq)]
pub struct Word {
    text: Vec<char>,
    size: usize,
    trailing_whitespace: usize,
    /// The word's place among the words of the input, from zero.
    pub order: usize,
}

/// The bonus by which a word that has a substitution goes first.
pub const SUBSTITUTION_BONUS: usize = 10;

/// The longest size in bytes at which a word that no rule matches is cut
/// down to its initial.
pub const INITIAL_THRESHOLD: usize = 2;

/// A text without the whitespace at its end.
pub open spec fn stripped(s: Seq<char>) -> Seq<char>
    decreases s.len(),
{
    if s.len() > 0 && is_whitespace(s.last()) {
        stripped(s.drop_last())
    } else {
        s
    }
}

/// The word that a token at place `order` makes.
pub open spec fn new_model(token: Seq<char>, order: nat) -> WordModel {
    WordModel {
        text: stripped(token),
        trailing: (token.len() - stripped(token).len()) as nat,
        order,
    }
}

/// The place in the queue that a word with this text asks for: its size in
/// bytes, and a bonus where the whole word has a substitution.
pub open spec fn priority_of(text: Seq<char>) -> nat {
    if substitute(text) is Some {
        byte_len(text) + SUBSTITUTION_BONUS as nat
    } else {
        byte_len(text)
    }
}

/// The position that the character-level rules take out of the text: that
/// of the first rule, in their order, that matches anywhere.
pub open spec fn removal(text: Seq<char>) -> Option<int> {
    if let Some(i) = first_match(Rule::DoubleLetter, text) {
        Some(i + 1)
    } else if let Some(i) = first_match(Rule::InnerVowel, text) {
        Some(i)
    } else if let Some(i) = first_match(Rule::TrailingVowel, text) {
        Some(i)
    } else if let Some(i) = first_match(Rule::InnerConsonant, text) {
        Some(i)
    } else if let Some(i) = first_match(Rule::Punctuation, text) {
        Some(i)
    } else {
        None
    }
}

/// The first character in upper case, or nothing for an empty text.
pub open spec fn initial(text: Seq<char>) -> Seq<char> {
    if text.len() == 0 {
        text
    } else {
        seq![upper(text[0])]
    }
}

/// The word after one step of shortening.
///
/// A word that has a substitution becomes it. Otherwise the first
/// character-level rule that matches takes one character out. Where none
/// does, a word of at most two bytes is cut down to its initial and loses
/// its trailing whitespace, and a longer one stays as it is.
pub open spec fn shortened(w: WordModel) -> WordModel {
    if let Some(r) = substitute(w.text) {
        WordModel { text: r, ..w }
    } else if let Some(i) = removal(w.text) {
        WordModel { text: w.text.remove(i), ..w }
    } else if byte_len(w.text) <= INITIAL_THRESHOLD {
        WordModel { text: initial(w.text), trailing: 0, order: w.order }
    } else {
        w
    }
}

/// The bytes that one step of shortening reports as saved: the difference
/// in size for a substitution, one for a character taken out, and nothing
/// otherwise, also where the word was cut down to its initial.
pub open spec fn saved(w: WordModel) -> nat {
    if let Some(r) = substitute(w.text) {
        (byte_len(w.text) - byte_len(r)) as nat
    } else if removal(w.text) is Some {
        1
    } else {
        0
    }
}

/// The word as it is written out: its text, then a space for each
/// whitespace character that followed it.
pub open spec fn rendered(w: WordModel) -> Seq<char> {
    w.text + Seq::new(w.trailing, |i: int| ' ')
}

/// Taking a character out takes its bytes out.
pub proof fn lemma_byte_len_remove(s: Seq<char>, i: int)
    requires
        0 <= i < s.len(),
    ensures
        byte_len(s.remove(i)) + utf8_width(s[i]) == byte_len(s),
{
    let a = s.take(i);
    let m = seq![s[i]];
    let b = s.skip(i + 1);
    assert(s =~= a + m + b);
    assert(s.remove(i) =~= a + b);
    lemma_byte_len_concat(a, m);
    lemma_byte_len_concat(a + m, b);
    lemma_byte_len_concat(a, b);
    assert(m.drop_last() =~= Seq::<char>::empty());
    assert(byte_len(m) == utf8_width(s[i])) by {
        assert(byte_len(m.drop_last()) == 0);
        assert(m.last() == s[i]);
    }
}

/// A beginning of a text is no larger than the text.
pub proof fn lemma_byte_len_take(s: Seq<char>, n: int)
    requires
        0 <= n <= s.len(),
    ensures
        byte_len(s.take(n)) <= byte_len(s),
{
    assert(s =~= s.take(n) + s.skip(n));
    lemma_byte_len_concat(s.take(n), s.skip(n));
}

/// What the character-level rules take out is a character of the text that
/// has one byte.
pub proof fn lemma_removal_is_one_byte(text: Seq<char>)
    requires
        removal(text) is Some,
    ensures
        0 <= removal(text)->0 < text.len(),
        utf8_width(text[removal(text)->0]) == 1,
        byte_len(text.remove(removal(text)->0)) + 1 == byte_len(text),
{
    lemma_first_match_is_least(Rule::DoubleLetter, text);
    lemma_first_match_is_least(Rule::InnerVowel, text);
    lemma_first_match_is_least(Rule::TrailingVowel, text);
    lemma_first_match_is_least(Rule::InnerConsonant, text);
    lemma_first_match_is_least(Rule::Punctuation, text);
    let i = removal(text)->0;
    if let Some(d) = first_match(Rule::DoubleLetter, text) {
        assert(matches_at(Rule::DoubleLetter, text, d));
        assert(is_letter(text[d + 1])) by {
            assert(lower(text[d]) == lower(text[d + 1]));
        }
    }
    assert(is_letter(text[i]) || is_punctuation(text[i]));
    lemma_byte_len_remove(text, i);
}

/// The initial of a text is no larger than the text.
pub proof fn lemma_initial_size(text: Seq<char>)
    ensures
        byte_len(initial(text)) <= byte_len(text),
{
    if text.len() > 0 {
        let m = initial(text);
        assert(m.drop_last() =~= Seq::<char>::empty());
        assert(byte_len(m) == utf8_width(upper(text[0]))) by {
            assert(byte_len(m.drop_last()) == 0);
            assert(m.last() == upper(text[0]));
        }
        assert(text =~= text.take(1) + text.skip(1));
        lemma_byte_len_concat(text.take(1), text.skip(1));
        assert(text.take(1).drop_last() =~= Seq::<char>::empty());
        assert(byte_len(text.take(1)) == utf8_width(text[0])) by {
            assert(byte_len(text.take(1).drop_last()) == 0);
            assert(text.take(1).last() == text[0]);
        }
    }
}

/// One step of shortening takes off at least what it reports, and a step
/// that reports something leaves the trailing whitespace alone.
pub proof fn lemma_shortened_size(w: WordModel)
    ensures
        byte_len(shortened(w).text) + saved(w) <= byte_len(w.text),
        shortened(w).trailing <= w.trailing,
        shortened(w).order == w.order,
        saved(w) > 0 ==> shortened(w).trailing == w.trailing,
        saved(w) > 0 ==> byte_len(shortened(w).text) + saved(w) == byte_len(w.text),
{
    if substitute(w.text) is Some {
        lemma_substitute_saves(w.text);
    } else if removal(w.text) is Some {
        lemma_removal_is_one_byte(w.text);
    } else if byte_len(w.text) <= INITIAL_THRESHOLD {
        lemma_initial_size(w.text);
    }
}

/// A run of spaces takes one byte for each.
pub proof fn lemma_spaces_size(n: nat)
    ensures
        byte_len(Seq::new(n, |i: int| ' ')) == n,
    decreases n,
{
    let s = Seq::new(n, |i: int| ' ');
    if n > 0 {
        lemma_spaces_size((n - 1) as nat);
        assert(s.drop_last() =~= Seq::new((n - 1) as nat, |i: int| ' '));
    }
}

/// A word that is written out takes the bytes of its text and one for
/// each trailing space.
pub proof fn lemma_rendered_size(w: WordModel)
    ensures
        byte_len(rendered(w)) == byte_len(w.text) + w.trailing,
{
    lemma_spaces_size(w.trailing);
    lemma_byte_len_concat(w.text, Seq::new(w.trailing, |i: int| ' '));
}

impl View for Word {
    type V = WordModel;

    closed spec fn view(&self) -> WordModel {
        WordModel {
            text: self.text@,
            trailing: self.trailing_whitespace as nat,
            order: self.order as nat,
        }
    }
}

impl Word {
    /// The size that is kept beside the text is the text's size.
    pub closed spec fn wf(&self) -> bool {
        self.size == byte_len(self.text@)
    }

    /// Makes the word of a token: the whitespace at its end is counted and
    /// taken off.
    pub fn new(word: String, order: usize) -> (w: Word)
        ensures
            w.wf(),
            w@ == new_model(word@, order as nat),
    {
        let size = byte_size(word.as_str());
        let text = chars_of(word.as_str());
        Word::from_chars(text, size, order)
    }

    /// Makes the word of a token that is given by its characters and its
    /// size in bytes.
    pub(crate) fn from_chars(token: Vec<char>, token_size: usize, order: usize) -> (w: Word)
        requires
            token_size == byte_len(token@),
        ensures
            w.wf(),
            w@ == new_model(token@, order as nat),
    {
        let n = token.len();
        let mut text = token;
        let mut size = token_size;
        let mut trailing_whitespace: usize = 0;
        while text.len() > 0 && char_is_whitespace(text[text.len() - 1])
            invariant
                size == byte_len(text@),
                n == token@.len(),
                text@.len() + trailing_whitespace == n,
                stripped(text@) == stripped(token@),
            decreases text@.len(),
        {
            let c = text.pop().unwrap();
            size = size - char_width(c);
            trailing_whitespace = trailing_whitespace + 1;
        }
        Word { text, size, trailing_whitespace, order }
    }

    /// The size of the word's text in bytes.
    pub fn len(&self) -> (n: usize)
        requires
            self.wf(),
        ensures
            n == byte_len(self@.text),
    {
        self.size
    }

    /// The word's place in the queue: higher goes first.
    pub fn priority(&self) -> (p: usize)
        requires
            self.wf(),
        ensures
            p == priority_of(self@.text),
    {
        let base = self.len();
        if self.can_substitute() {
            proof {
                lemma_substitute_saves(self.text@);
            }
            base + SUBSTITUTION_BONUS
        } else {
            base
        }
    }

    /// Whether the whole word has a substitution.
    pub fn can_substitute(&self) -> (r: bool)
        ensures
            r == (substitute(self@.text) is Some),
    {
        find_substitute(&self.text).is_some()
    }

    /// Where the first vowel inside a run of letters stands, if there is one.
    pub fn first_inner_word_vowel(&self) -> (r: Option<usize>)
        ensures
            as_position(r) == first_match(Rule::InnerVowel, self@.text),
    {
        find_first(&self.text, Rule::InnerVowel)
    }

    /// Where the first vowel that ends a run of letters stands, if there is one.
    pub fn trailing_vowel(&self) -> (r: Option<usize>)
        ensures
            as_position(r) == first_match(Rule::TrailingVowel, self@.text),
    {
        find_first(&self.text, Rule::TrailingVowel)
    }

    /// Where the first consonant inside a run of letters stands, if there is one.
    pub fn first_inner_word_consonant(&self) -> (r: Option<usize>)
        ensures
            as_position(r) == first_match(Rule::InnerConsonant, self@.text),
    {
        find_first(&self.text, Rule::InnerConsonant)
    }

    /// The position that the character-level rules take out, if one matches.
    fn find_removal(&self) -> (r: Option<usize>)
        ensures
            as_position(r) == removal(self@.text),
    {
        let n = self.text.len();
        if let Some(i) = find_double_letter(&self.text) {
            proof {
                lemma_first_match_is_least(Rule::DoubleLetter, self.text@);
                assert(matches_at(Rule::DoubleLetter, self.text@, i as int));
                assert(i + 1 < n);
            }
            Some(i + 1)
        } else if let Some(i) = self.first_inner_word_vowel() {
            Some(i)
        } else if let Some(i) = self.trailing_vowel() {
            Some(i)
        } else if let Some(i) = self.first_inner_word_consonant() {
            Some(i)
        } else if let Some(i) = find_punctuation(&self.text) {
            Some(i)
        } else {
            None
        }
    }

    /// Shortens the word by one step and returns the bytes saved.
    ///
    /// A result of zero says that the word will not get shorter by another
    /// call; it may have been cut down to its initial in this one.
    pub fn shorten(&mut self) -> (removed: usize)
        requires
            old(self).wf(),
        ensures
            final(self).wf(),
            final(self)@ == shortened(old(self)@),
            removed == saved(old(self)@),
    {
        proof {
            lemma_shortened_size(self@);
        }
        if let Some(substitution) = find_substitute(&self.text) {
            proof {
                lemma_substitute_saves(self.text@);
                lemma_ascii_byte_len(substitution@);
            }
            let new_size = substitution.len();
            let removed = self.size - new_size;
            self.text = substitution;
            self.size = new_size;
            return removed;
        }
        if let Some(i) = self.find_removal() {
            proof {
                lemma_removal_is_one_byte(self.text@);
            }
            self.text.remove(i);
            self.size = self.size - 1;
            return 1;
        }
        if self.size <= INITIAL_THRESHOLD {
            let mut first: Vec<char> = Vec::new();
            let mut size: usize = 0;
            if self.text.len() > 0 {
                let c = char_upper(self.text[0]);
                first.push(c);
                size = char_width(c);
                proof {
                    assert(first@ =~= initial(self.text@));
                    assert(first@.drop_last() =~= Seq::<char>::empty());
                    assert(byte_len(first@.drop_last()) == 0);
                }
            } else {
                assert(first@ =~= initial(self.text@));
            }
            self.text = first;
            self.size = size;
            self.trailing_whitespace = 0;
        }
        0
    }

    /// The word's text.
    pub fn text(&self) -> (s: String)
        ensures
            s@ == self@.text,
    {
        string_of(&self.text)
    }

    /// The count of the whitespace that followed the word.
    pub fn trailing_whitespace(&self) -> (n: usize)
        ensures
            n == self@.trailing,
    {
        self.trailing_whitespace
    }

    /// Appends the word as it is written out to `out`.
    pub(crate) fn render_into(&self, out: &mut Vec<char>)
        ensures
            final(out)@ == old(out)@ + rendered(self@),
    {
        let ghost before = out@;
        let mut i: usize = 0;
        while i < self.text.len()
            invariant
                i <= self.text@.len(),
                out@ == before + self.text@.take(i as int),
            decreases self.text@.len() - i,
        {
            out.push(self.text[i]);
            assert(before + self.text@.take(i + 1) =~= (before + self.text@.take(i as int)).push(
                self.text@[i as int],
            ));
            i += 1;
        }
        assert(self.text@.take(self.text@.len() as int) =~= self.text@);
        let mut k: usize = 0;
        while k < self.trailing_whitespace
            invariant
                k <= self.trailing_whitespace,
                out@ == before + self.text@ + Seq::new(k as nat, |i: int| ' '),
            decreases self.trailing_whitespace - k,
        {
            out.push(' ');
            assert(before + self.text@ + Seq::new((k + 1) as nat, |i: int| ' ') =~= (before
                + self.text@ + Seq::new(k as nat, |i: int| ' ')).push(' '));
            k += 1;
        }
        assert(out@ =~= before + rendered(self@));
    }

    /// Appends the word's initial to `out`.
    pub(crate) fn initial_into(&self, out: &mut Vec<char>)
        ensures
            final(out)@ == old(out)@ + initial(self@.text),
    {
        if self.text.len() > 0 {
            out.push(char_upper(self.text[0]));
            assert(out@ =~= old(out)@ + initial(self@.text));
        } else {
            assert(out@ =~= old(out)@ + initial(self@.text));
        }
    }

    /// The word as it is written out: its text, then a space for each
    /// whitespace character that followed it.
    pub fn to_string(&self) -> (s: String)
        ensures
            s@ == rendered(self@),
    {
        let mut out: Vec<char> = Vec::new();
        self.render_into(&mut out);
        assert(Seq::<char>::empty() + rendered(self@) =~= rendered(self@));
        string_of(&out)
    }
}

} // verus!
