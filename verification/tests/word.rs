use crunch_str::substitutions::substitution_table;
use crunch_str::word::Word;

fn new_word(s: &str) -> Word {
    Word::new(s.to_string(), 0)
}

#[test]
fn score_is_length() {
    assert_eq!(new_word("abcd").priority(), 4);
}

#[test]
fn word_removes_double_letters() {
    let mut word = new_word("bookkeeper");

    assert_eq!(word.shorten(), 1);
    assert_eq!(word.shorten(), 1);
    assert_eq!(word.shorten(), 1);
    assert_eq!(word.text(), "bokeper");
}

#[test]
fn removes_inner_vowels() {
    let mut word = new_word("delicious");

    assert_eq!(word.shorten(), 1);
    assert_eq!(word.text(), "dlicious");
}

#[test]
fn removes_trailing_vowels() {
    let mut word = new_word("the");

    assert_eq!(word.shorten(), 1);
    assert_eq!(word.text(), "th");
}

#[test]
fn removes_punctuation() {
    let mut word = new_word("!?.,:");

    assert_eq!(word.shorten(), 1, "{}", word.text());
    assert_eq!(word.shorten(), 1, "{}", word.text());
    assert_eq!(word.shorten(), 1, "{}", word.text());
    assert_eq!(word.shorten(), 1, "{}", word.text());
    assert_eq!(word.shorten(), 1, "{}", word.text());
    assert_eq!(word.text(), "");
}

#[test]
fn removes_inner_consonants() {
    let mut word = new_word("qwerty");

    assert_eq!(word.shorten(), 1); // the vowel
    assert_eq!(word.shorten(), 1);
    assert_eq!(word.shorten(), 1);
    assert_eq!(word.text(), "qty");
}

#[test]
fn substitutes_shorter_meanings() {
    let table = substitution_table();
    assert_eq!(table.len(), 20);
    for (key, sub) in table {
        let key: String = key.into_iter().collect();
        let sub: String = sub.into_iter().collect();
        let mut word = new_word(&key);

        assert_eq!(word.shorten(), key.len() - sub.len());
        assert_eq!(word.text(), sub.to_string());
    }
}

#[test]
fn substitution_table_holds_the_known_words() {
    let table: Vec<(String, String)> = substitution_table()
        .into_iter()
        .map(|(k, v)| (k.into_iter().collect(), v.into_iter().collect()))
        .collect();
    let expected = [
        ("one", "1"),
        ("two", "2"),
        ("three", "3"),
        ("four", "4"),
        ("five", "5"),
        ("six", "6"),
        ("seven", "7"),
        ("eight", "8"),
        ("nine", "9"),
        ("ten", "10"),
        ("and", "&"),
        ("are", "r"),
        ("be", "b"),
        ("for", "4"),
        ("our", "r"),
        ("to", "2"),
        ("why", "y"),
        ("you", "u"),
        ("your", "ur"),
        ("make", "mk"),
    ];
    assert_eq!(table.len(), expected.len());
    for (i, (k, v)) in expected.iter().enumerate() {
        assert_eq!(table[i].0, *k);
        assert_eq!(table[i].1, *v);
    }
}

#[test]
fn new_takes_trailing_whitespace_off() {
    let word = new_word("abc \t\n");
    assert_eq!(word.text(), "abc");
    assert_eq!(word.trailing_whitespace(), 3);
    assert_eq!(word.len(), 3);
    assert_eq!(word.to_string(), "abc   ");
}

#[test]
fn new_keeps_inner_and_leading_whitespace() {
    let word = new_word(" a b");
    assert_eq!(word.text(), " a b");
    assert_eq!(word.trailing_whitespace(), 0);
}

#[test]
fn new_of_whitespace_only_is_empty() {
    let word = new_word("  ");
    assert_eq!(word.text(), "");
    assert_eq!(word.len(), 0);
    assert_eq!(word.trailing_whitespace(), 2);
    assert_eq!(word.priority(), 0);
}

#[test]
fn len_counts_bytes() {
    assert_eq!(new_word("caf\u{e9}").len(), 5);
    assert_eq!(new_word("\u{65e5}\u{672c}").len(), 6);
    assert_eq!(new_word("\u{1f600}").len(), 4);
}

#[test]
fn priority_has_bonus_for_substitution() {
    assert_eq!(new_word("one").priority(), 13);
    assert_eq!(new_word("be").priority(), 12);
    assert_eq!(new_word("three").priority(), 15);
    assert_eq!(new_word("ones").priority(), 4);
}

#[test]
fn substitution_ignores_case() {
    let mut word = new_word("You ");
    assert!(word.can_substitute());
    assert_eq!(word.priority(), 13);
    assert_eq!(word.shorten(), 2);
    assert_eq!(word.text(), "u");
    assert_eq!(word.to_string(), "u ");
    assert!(!word.can_substitute());
}

#[test]
fn substitution_comes_before_other_rules() {
    // "three" has a double letter too
    let mut word = new_word("three");
    assert_eq!(word.shorten(), 4);
    assert_eq!(word.text(), "3");
    let mut word = new_word("ten");
    assert_eq!(word.shorten(), 1);
    assert_eq!(word.text(), "10");
}

#[test]
fn double_letter_keeps_case_of_first() {
    let mut word = new_word("xOox");
    assert_eq!(word.shorten(), 1);
    assert_eq!(word.text(), "xOx");
}

#[test]
fn double_letter_comes_before_vowels() {
    let mut word = new_word("ballad");
    assert_eq!(word.shorten(), 1);
    assert_eq!(word.text(), "balad");
    assert_eq!(word.shorten(), 1);
    assert_eq!(word.text(), "blad");
}

#[test]
fn double_digits_are_no_double_letters() {
    let mut word = new_word("1100");
    assert_eq!(word.shorten(), 0);
    assert_eq!(word.text(), "1100");
}

#[test]
fn inner_vowel_positions() {
    assert_eq!(new_word("delicious").first_inner_word_vowel(), Some(1));
    assert_eq!(new_word("qwerty").first_inner_word_vowel(), Some(2));
    assert_eq!(new_word("the").first_inner_word_vowel(), None);
    assert_eq!(new_word("as").first_inner_word_vowel(), None);
    assert_eq!(new_word("xyz").first_inner_word_vowel(), Some(1));
    assert_eq!(new_word("(band)").first_inner_word_vowel(), Some(2));
    assert_eq!(new_word("don't").first_inner_word_vowel(), Some(1));
    assert_eq!(new_word("ab-cde").first_inner_word_vowel(), None);
    assert_eq!(new_word("st-cod").first_inner_word_vowel(), Some(4));
}

#[test]
fn letters_beside_digits_are_left_alone() {
    assert_eq!(new_word("band1").first_inner_word_vowel(), None);
    assert_eq!(new_word("1band").first_inner_word_vowel(), None);
    assert_eq!(new_word("band_").first_inner_word_consonant(), None);
    assert_eq!(new_word("the1").trailing_vowel(), None);
    let mut word = new_word("band1");
    assert_eq!(word.shorten(), 0);
    assert_eq!(word.text(), "band1");
}

#[test]
fn trailing_vowel_positions() {
    assert_eq!(new_word("the").trailing_vowel(), Some(2));
    assert_eq!(new_word("a").trailing_vowel(), None);
    assert_eq!(new_word("by").trailing_vowel(), None);
    assert_eq!(new_word("go!").trailing_vowel(), Some(1));
    assert_eq!(new_word("th, me").trailing_vowel(), Some(5));
}

#[test]
fn inner_consonant_positions() {
    assert_eq!(new_word("qwrty").first_inner_word_consonant(), Some(1));
    assert_eq!(new_word("qy").first_inner_word_consonant(), None);
    assert_eq!(new_word("aye").first_inner_word_consonant(), None);
    assert_eq!(new_word("x.bcd").first_inner_word_consonant(), Some(3));
}

#[test]
fn patterns_ignore_case() {
    let mut word = new_word("BAND");
    assert_eq!(word.shorten(), 1);
    assert_eq!(word.text(), "BND");
    assert_eq!(word.shorten(), 1);
    assert_eq!(word.text(), "BD");
}

#[test]
fn vowels_go_before_punctuation() {
    let mut word = new_word("me,");
    assert_eq!(word.shorten(), 1);
    assert_eq!(word.text(), "m,");
    assert_eq!(word.shorten(), 1);
    assert_eq!(word.text(), "m");
    assert_eq!(word.shorten(), 0);
    assert_eq!(word.text(), "M");
}

#[test]
fn short_stuck_word_becomes_its_initial() {
    let mut word = new_word("by ");
    assert_eq!(word.trailing_whitespace(), 1);
    assert_eq!(word.shorten(), 0);
    assert_eq!(word.text(), "B");
    assert_eq!(word.trailing_whitespace(), 0);
    assert_eq!(word.to_string(), "B");
    assert_eq!(word.shorten(), 0);
    assert_eq!(word.text(), "B");
}

#[test]
fn single_letter_reports_nothing_saved() {
    let mut word = new_word("a");
    assert_eq!(word.shorten(), 0);
    assert_eq!(word.text(), "A");
    assert_eq!(word.len(), 1);
}

#[test]
fn empty_word_reports_nothing_saved() {
    let mut word = new_word("");
    assert_eq!(word.shorten(), 0);
    assert_eq!(word.text(), "");
    assert_eq!(word.len(), 0);
    let mut word = new_word(" ");
    assert_eq!(word.shorten(), 0);
    assert_eq!(word.to_string(), "");
}

#[test]
fn long_stuck_word_stays() {
    let mut word = new_word("1234 ");
    assert_eq!(word.shorten(), 0);
    assert_eq!(word.text(), "1234");
    assert_eq!(word.to_string(), "1234 ");
}

#[test]
fn characters_outside_ascii_are_neither_vowel_nor_consonant() {
    let mut word = new_word("\u{e9}\u{e8}\u{ea}\u{eb}");
    assert_eq!(word.len(), 8);
    assert_eq!(word.shorten(), 0);
    assert_eq!(word.text(), "\u{e9}\u{e8}\u{ea}\u{eb}");
}

#[test]
fn two_byte_character_is_its_own_initial() {
    let mut word = new_word("\u{e9} ");
    assert_eq!(word.len(), 2);
    assert_eq!(word.shorten(), 0);
    assert_eq!(word.text(), "\u{e9}");
    assert_eq!(word.to_string(), "\u{e9}");
}

#[test]
fn text_never_grows() {
    let mut word = new_word("Mississippi,");
    let mut size = word.len();
    loop {
        let removed = word.shorten();
        assert!(word.len() + removed <= size);
        if removed == 0 {
            break;
        }
        assert_eq!(word.len() + removed, size);
        size = word.len();
    }
    assert_eq!(word.text(), "M");
}
