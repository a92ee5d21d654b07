use crunch_str::substitutions::substitution_table;
use crunch_str::word::Word;
use regex::{Regex, RegexBuilder};
use std::collections::HashMap;

/// The rules of a word, written as patterns.
struct Patterns {
    double_letter: Regex,
    inner_vowel: Regex,
    trailing_vowel: Regex,
    inner_consonant: Regex,
    punctuation: Regex,
    substitutions: HashMap<String, String>,
}

fn pattern(source: &str) -> Regex {
    RegexBuilder::new(source)
        .case_insensitive(true)
        .build()
        .unwrap()
}

fn patterns() -> Patterns {
    Patterns {
        double_letter: pattern(
            r"(aa|bb|cc|dd|ee|ff|gg|hh|ii|jj|kk|ll|mm|nn|oo|pp|qq|rr|ss|tt|uu|vv|ww|xx|yy|zz)",
        ),
        inner_vowel: pattern(r"\b[a-z]+?([aeiouy])[a-z]+\b"),
        trailing_vowel: pattern(r"\b[a-z]+?([aeiou])\b"),
        inner_consonant: pattern(r"\b[a-z]+?([bcdfghjklmnpqrstvwxz])[a-z]+\b"),
        punctuation: Regex::new(r"[\.,!?:]").unwrap(),
        substitutions: substitution_table()
            .into_iter()
            .map(|(k, v)| (k.into_iter().collect(), v.into_iter().collect()))
            .collect(),
    }
}

fn group(re: &Regex, text: &str) -> Option<std::ops::Range<usize>> {
    re.captures(text)
        .and_then(|captures| captures.get(1))
        .map(|found| found.range())
}

/// One step on a word by the patterns: the bytes saved.
fn step(rules: &Patterns, word: &mut String, trailing: &mut usize) -> usize {
    if let Some(substitution) = rules.substitutions.get(&word.to_ascii_lowercase()) {
        let saved = word.len() - substitution.len();
        *word = substitution.clone();
        return saved;
    }
    if let Some(found) = rules.double_letter.find(word) {
        let first: String = found.as_str().chars().take(1).collect();
        word.replace_range(found.range(), &first);
        return 1;
    }
    if let Some(vowel) = group(&rules.inner_vowel, word) {
        word.replace_range(vowel, "");
        return 1;
    }
    if let Some(vowel) = group(&rules.trailing_vowel, word) {
        word.replace_range(vowel, "");
        return 1;
    }
    if let Some(consonant) = group(&rules.inner_consonant, word) {
        word.replace_range(consonant, "");
        return 1;
    }
    if let Some(found) = rules.punctuation.find(word) {
        word.replace_range(found.range(), "");
        return 1;
    }
    if word.len() <= 2 {
        *word = word
            .chars()
            .take(1)
            .map(|c| c.to_ascii_uppercase())
            .collect();
        *trailing = 0;
    }
    0
}

/// Every text over the alphabet of at most `max` characters.
fn texts(alphabet: &[char], max: usize) -> Vec<String> {
    let mut all = vec![String::new()];
    let mut last = vec![String::new()];
    for _ in 0..max {
        let mut next = Vec::new();
        for text in &last {
            for c in alphabet {
                let mut longer = text.clone();
                longer.push(*c);
                next.push(longer);
            }
        }
        all.extend(next.iter().cloned());
        last = next;
    }
    all
}

/// Shortens the text to the end both ways and holds each step of the one
/// against the other.
fn same_steps(rules: &Patterns, text: &str) {
    let mut word = Word::new(format!("{text} "), 0);
    let mut expected = text.to_string();
    let mut trailing = 1;
    loop {
        let removed = word.shorten();
        let saved = step(rules, &mut expected, &mut trailing);
        assert_eq!(removed, saved, "{text:?}");
        assert_eq!(word.text(), expected, "{text:?}");
        assert_eq!(word.trailing_whitespace(), trailing, "{text:?}");
        assert_eq!(word.len(), expected.len(), "{text:?}");
        if removed == 0 {
            break;
        }
    }
}

#[test]
fn words_of_letters_digits_and_marks_take_the_steps_of_the_patterns() {
    let rules = patterns();
    for text in texts(&['a', 'e', 'y', 'b', 'T', 's', '1', '_', '.'], 5) {
        same_steps(&rules, &text);
    }
}

#[test]
fn words_in_mixed_case_take_the_steps_of_the_patterns() {
    let rules = patterns();
    for text in texts(&['O', 'o', 'n', 'N', 'e', 'w', 't', '-', '!'], 5) {
        same_steps(&rules, &text);
    }
}

#[test]
fn words_with_quotes_and_digits_take_the_steps_of_the_patterns() {
    let rules = patterns();
    for text in texts(&['u', 'r', 'Y', 'k', '\'', '0', ',', '(', ':'], 5) {
        same_steps(&rules, &text);
    }
}

#[test]
fn known_words_take_the_steps_of_the_patterns() {
    let rules = patterns();
    for (key, _) in substitution_table() {
        let key: String = key.into_iter().collect();
        same_steps(&rules, &key);
        same_steps(&rules, &key.to_ascii_uppercase());
        same_steps(&rules, &format!("{key}s"));
        same_steps(&rules, &format!("{key},"));
    }
    for text in [
        "bookkeeper",
        "Mississippi,",
        "'Twas",
        "brillig,",
        "metrics?",
        "(parenthetical)",
        "snake_case",
        "kebab-case",
        "x86_64",
        "don't",
        "rhythm",
        "e.g.",
        "semi-automatic",
        "!?.,:",
    ] {
        same_steps(&rules, text);
    }
}
