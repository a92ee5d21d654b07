//! Character classes and UTF-8 sizes that the shortening rules are built on.
//!
//! Letters, vowels and consonants are the ASCII ones, in either case: a
//! character outside ASCII is neither a vowel nor a consonant.

use vstd::prelude::*;
use vstd::utf8::*;

verus! {

/// The characters that separate words: those with Unicode's `White_Space`
/// property.
pub open spec fn is_whitespace(c: char) -> bool {
    let u = c as u32;
    ||| 0x09 <= u <= 0x0D
    ||| u == 0x20
    ||| u == 0x85
    ||| u == 0xA0
    ||| u == 0x1680
    ||| 0x2000 <= u <= 0x200A
    ||| u == 0x2028
    ||| u == 0x2029
    ||| u == 0x202F
    ||| u == 0x205F
    ||| u == 0x3000
}

/// An ASCII capital letter.
pub open spec fn is_upper(c: char) -> bool {
    'A' <= c <= 'Z'
}

/// An ASCII small letter.
pub open spec fn is_lower(c: char) -> bool {
    'a' <= c <= 'z'
}

/// An ASCII letter.
pub open spec fn is_letter(c: char) -> bool {
    is_upper(c) || is_lower(c)
}

/// An ASCII digit.
pub open spec fn is_digit(c: char) -> bool {
    '0' <= c <= '9'
}

/// A character that belongs to a word when boundaries are looked for:
/// a letter, a digit or an underscore.
pub open spec fn is_word_char(c: char) -> bool {
    is_letter(c) || is_digit(c) || c == '_'
}

/// The lower-case form of an ASCII letter; any other character is unchanged.
pub open spec fn lower(c: char) -> char {
    if is_upper(c) {
        ((c as u8) + 32) as char
    } else {
        c
    }
}

/// The upper-case form of an ASCII letter; any other character is unchanged.
pub open spec fn upper(c: char) -> char {
    if is_lower(c) {
        ((c as u8) - 32) as char
    } else {
        c
    }
}

/// The vowels that may be taken out of the middle of a word: `y` counts.
pub open spec fn is_vowel(c: char) -> bool {
    let l = lower(c);
    l == 'a' || l == 'e' || l == 'i' || l == 'o' || l == 'u' || l == 'y'
}

/// The vowels that may be taken off the end of a word: `y` does not count.
pub open spec fn is_strict_vowel(c: char) -> bool {
    let l = lower(c);
    l == 'a' || l == 'e' || l == 'i' || l == 'o' || l == 'u'
}

/// A letter that is no vowel, `y` left aside.
pub open spec fn is_consonant(c: char) -> bool {
    is_letter(c) && !is_vowel(c)
}

/// The punctuation marks that can go: `.`, `,`, `!`, `?` and `:`.
pub open spec fn is_punctuation(c: char) -> bool {
    c == '.' || c == ',' || c == '!' || c == '?' || c == ':'
}

/// The number of bytes that one character takes in UTF-8.
pub open spec fn utf8_width(c: char) -> nat {
    let u = c as u32;
    if u < 0x80 {
        1
    } else if u < 0x800 {
        2
    } else if u < 0x10000 {
        3
    } else {
        4
    }
}

/// The number of bytes that a text takes in UTF-8.
pub open spec fn byte_len(s: Seq<char>) -> nat
    decreases s.len(),
{
    if s.len() == 0 {
        0
    } else {
        byte_len(s.drop_last()) + utf8_width(s.last())
    }
}

/// Whether the character separates words.
pub fn char_is_whitespace(c: char) -> (r: bool)
    ensures
        r == is_whitespace(c),
{
    let u: u32 = c as u32;
    (0x09 <= u && u <= 0x0D) || u == 0x20 || u == 0x85 || u == 0xA0 || u == 0x1680 || (0x2000 <= u
        && u <= 0x200A) || u == 0x2028 || u == 0x2029 || u == 0x202F || u == 0x205F || u == 0x3000
}

/// Whether the character is an ASCII letter.
pub fn char_is_letter(c: char) -> (r: bool)
    ensures
        r == is_letter(c),
{
    ('A' <= c && c <= 'Z') || ('a' <= c && c <= 'z')
}

/// Whether the character is a letter, a digit or an underscore.
pub fn char_is_word_char(c: char) -> (r: bool)
    ensures
        r == is_word_char(c),
{
    char_is_letter(c) || ('0' <= c && c <= '9') || c == '_'
}

/// The character with an ASCII letter in lower case.
pub fn char_lower(c: char) -> (r: char)
    ensures
        r == lower(c),
{
    if 'A' <= c && c <= 'Z' {
        let b: u8 = c as u8;
        (b + 32) as char
    } else {
        c
    }
}

/// The character with an ASCII letter in upper case.
pub fn char_upper(c: char) -> (r: char)
    ensures
        r == upper(c),
{
    if 'a' <= c && c <= 'z' {
        let b: u8 = c as u8;
        (b - 32) as char
    } else {
        c
    }
}

/// Whether the character is a vowel, `y` counted.
pub fn char_is_vowel(c: char) -> (r: bool)
    ensures
        r == is_vowel(c),
{
    let l = char_lower(c);
    l == 'a' || l == 'e' || l == 'i' || l == 'o' || l == 'u' || l == 'y'
}

/// Whether the character is a vowel, `y` not counted.
pub fn char_is_strict_vowel(c: char) -> (r: bool)
    ensures
        r == is_strict_vowel(c),
{
    let l = char_lower(c);
    l == 'a' || l == 'e' || l == 'i' || l == 'o' || l == 'u'
}

/// Whether the character is a consonant.
pub fn char_is_consonant(c: char) -> (r: bool)
    ensures
        r == is_consonant(c),
{
    char_is_letter(c) && !char_is_vowel(c)
}

/// Whether the character is a punctuation mark that can go.
pub fn char_is_punctuation(c: char) -> (r: bool)
    ensures
        r == is_punctuation(c),
{
    c == '.' || c == ',' || c == '!' || c == '?' || c == ':'
}

/// The number of bytes that the character takes in UTF-8.
pub fn char_width(c: char) -> (r: usize)
    ensures
        r == utf8_width(c),
        1 <= r <= 4,
{
    let u: u32 = c as u32;
    if u < 0x80 {
        1
    } else if u < 0x800 {
        2
    } else if u < 0x10000 {
        3
    } else {
        4
    }
}

/// The size of a text is the sum of the sizes of its parts.
pub proof fn lemma_byte_len_concat(a: Seq<char>, b: Seq<char>)
    ensures
        byte_len(a + b) == byte_len(a) + byte_len(b),
    decreases b.len(),
{
    if b.len() == 0 {
        assert(a + b =~= a);
    } else {
        lemma_byte_len_concat(a, b.drop_last());
        assert((a + b).drop_last() =~= a + b.drop_last());
        assert((a + b).last() == b.last());
    }
}

/// `byte_len` is the length of the UTF-8 encoding.
pub proof fn lemma_byte_len_is_encoded_len(s: Seq<char>)
    ensures
        byte_len(s) == encode_utf8(s).len(),
    decreases s.len(),
{
    if s.len() == 0 {
    } else {
        let head = s.subrange(0, 1);
        let tail = s.drop_first();
        lemma_byte_len_is_encoded_len(tail);
        assert(s =~= head + tail);
        lemma_byte_len_concat(head, tail);
        assert(head.drop_last() =~= Seq::<char>::empty());
        assert(byte_len(head) == utf8_width(s[0])) by {
            assert(byte_len(head.drop_last()) == 0);
            assert(head.last() == s[0]);
        }
        char_is_scalar(s[0]);
    }
}

} // verus!
