//! Whole words that have a shorter way of being written.

use crate::chars::{byte_len, char_lower, lower};
use vstd::prelude::*;

verus! {

/// The table: a word in lower case, and what is written in its place.
pub open spec fn table() -> Seq<(Seq<char>, Seq<char>)> {
    seq![
        (seq!['o', 'n', 'e'], seq!['1']),
        (seq!['t', 'w', 'o'], seq!['2']),
        (seq!['t', 'h', 'r', 'e', 'e'], seq!['3']),
        (seq!['f', 'o', 'u', 'r'], seq!['4']),
        (seq!['f', 'i', 'v', 'e'], seq!['5']),
        (seq!['s', 'i', 'x'], seq!['6']),
        (seq!['s', 'e', 'v', 'e', 'n'], seq!['7']),
        (seq!['e', 'i', 'g', 'h', 't'], seq!['8']),
        (seq!['n', 'i', 'n', 'e'], seq!['9']),
        (seq!['t', 'e', 'n'], seq!['1', '0']),
        (seq!['a', 'n', 'd'], seq!['&']),
        (seq!['a', 'r', 'e'], seq!['r']),
        (seq!['b', 'e'], seq!['b']),
        (seq!['f', 'o', 'r'], seq!['4']),
        (seq!['o', 'u', 'r'], seq!['r']),
        (seq!['t', 'o'], seq!['2']),
        (seq!['w', 'h', 'y'], seq!['y']),
        (seq!['y', 'o', 'u'], seq!['u']),
        (seq!['y', 'o', 'u', 'r'], seq!['u', 'r']),
        (seq!['m', 'a', 'k', 'e'], seq!['m', 'k']),
    ]
}

/// A text with each of its ASCII letters in lower case.
pub open spec fn lowered(s: Seq<char>) -> Seq<char> {
    Seq::new(s.len(), |i: int| lower(s[i]))
}

/// What the table holds for `key` among its entries from `from` on.
pub open spec fn lookup_from(key: Seq<char>, from: int) -> Option<Seq<char>>
    decreases table().len() - from,
{
    if from < 0 || from >= table().len() {
        None
    } else if table()[from].0 == key {
        Some(table()[from].1)
    } else {
        lookup_from(key, from + 1)
    }
}

/// What is written in place of the word `text`, if the table knows it; the
/// case of its letters does not count.
pub open spec fn substitute(text: Seq<char>) -> Option<Seq<char>> {
    lookup_from(lowered(text), 0)
}

/// Every character is ASCII.
pub open spec fn all_ascii(s: Seq<char>) -> bool {
    forall|i: int| 0 <= i < s.len() ==> (#[trigger] s[i] as u32) < 0x80
}

/// What holds of each entry: both sides are ASCII, and the replacement is
/// not empty and shorter than the word, which has at most five letters.
pub open spec fn entry_ok(e: (Seq<char>, Seq<char>)) -> bool {
    &&& all_ascii(e.0)
    &&& all_ascii(e.1)
    &&& 1 <= e.1.len() < e.0.len() <= 5
}

/// The table as values.
pub fn substitution_table() -> (t: Vec<(Vec<char>, Vec<char>)>)
    ensures
        t@.len() == table().len(),
        forall|i: int|
            0 <= i < t@.len() ==> (#[trigger] t@[i]).0@ == table()[i].0 && t@[i].1@ == table()[i].1,
{
    vec![
        (vec!['o', 'n', 'e'], vec!['1']),
        (vec!['t', 'w', 'o'], vec!['2']),
        (vec!['t', 'h', 'r', 'e', 'e'], vec!['3']),
        (vec!['f', 'o', 'u', 'r'], vec!['4']),
        (vec!['f', 'i', 'v', 'e'], vec!['5']),
        (vec!['s', 'i', 'x'], vec!['6']),
        (vec!['s', 'e', 'v', 'e', 'n'], vec!['7']),
        (vec!['e', 'i', 'g', 'h', 't'], vec!['8']),
        (vec!['n', 'i', 'n', 'e'], vec!['9']),
        (vec!['t', 'e', 'n'], vec!['1', '0']),
        (vec!['a', 'n', 'd'], vec!['&']),
        (vec!['a', 'r', 'e'], vec!['r']),
        (vec!['b', 'e'], vec!['b']),
        (vec!['f', 'o', 'r'], vec!['4']),
        (vec!['o', 'u', 'r'], vec!['r']),
        (vec!['t', 'o'], vec!['2']),
        (vec!['w', 'h', 'y'], vec!['y']),
        (vec!['y', 'o', 'u'], vec!['u']),
        (vec!['y', 'o', 'u', 'r'], vec!['u', 'r']),
        (vec!['m', 'a', 'k', 'e'], vec!['m', 'k']),
    ]
}

/// An ASCII text takes one byte for each character.
pub proof fn lemma_ascii_byte_len(s: Seq<char>)
    requires
        all_ascii(s),
    ensures
        byte_len(s) == s.len(),
    decreases s.len(),
{
    if s.len() > 0 {
        assert(s.drop_last().len() == s.len() - 1);
        assert forall|i: int| 0 <= i < s.drop_last().len() implies (#[trigger] s.drop_last()[i]
            as u32) < 0x80 by {
            assert(s.drop_last()[i] == s[i]);
        }
        lemma_ascii_byte_len(s.drop_last());
        assert((s.last() as u32) < 0x80);
    }
}

/// Every entry of the table is in order.
pub proof fn lemma_table_ok()
    ensures
        table().len() == 20,
        forall|i: int| 0 <= i < table().len() ==> entry_ok(#[trigger] table()[i]),
{
}

/// Where `lookup_from` finds something, the table has that entry.
pub proof fn lemma_lookup_is_entry(key: Seq<char>, from: int)
    requires
        0 <= from,
        lookup_from(key, from) is Some,
    ensures
        exists|i: int|
            from <= i < table().len() && (#[trigger] table()[i]).0 == key && table()[i].1
                == lookup_from(key, from)->0,
    decreases table().len() - from,
{
    if table()[from].0 == key {
    } else {
        lemma_lookup_is_entry(key, from + 1);
    }
}

/// A substitution saves at least one byte, and only short ASCII words have one.
pub proof fn lemma_substitute_saves(text: Seq<char>)
    requires
        substitute(text) is Some,
    ensures
        all_ascii(text),
        all_ascii(substitute(text)->0),
        1 <= byte_len(substitute(text)->0) < byte_len(text) <= 5,
{
    let key = lowered(text);
    lemma_lookup_is_entry(key, 0);
    lemma_table_ok();
    let i = choose|i: int|
        0 <= i < table().len() && (#[trigger] table()[i]).0 == key && table()[i].1 == lookup_from(
            key,
            0,
        )->0;
    assert(entry_ok(table()[i]));
    assert forall|j: int| 0 <= j < text.len() implies (#[trigger] text[j] as u32) < 0x80 by {
        assert((key[j] as u32) < 0x80);
        assert(key[j] == lower(text[j]));
    }
    lemma_ascii_byte_len(text);
    lemma_ascii_byte_len(table()[i].1);
}

/// The text with its ASCII letters in lower case.
fn lowered_text(text: &Vec<char>) -> (v: Vec<char>)
    ensures
        v@ == lowered(text@),
{
    let mut v: Vec<char> = Vec::new();
    let mut i: usize = 0;
    while i < text.len()
        invariant
            i <= text@.len(),
            v@.len() == i,
            forall|j: int| 0 <= j < i ==> v@[j] == lower(text@[j]),
        decreases text@.len() - i,
    {
        v.push(char_lower(text[i]));
        i += 1;
    }
    assert(v@ =~= lowered(text@));
    v
}

/// Whether two texts are the same.
fn same_text(a: &Vec<char>, b: &Vec<char>) -> (r: bool)
    ensures
        r == (a@ == b@),
{
    if a.len() != b.len() {
        return false;
    }
    let mut i: usize = 0;
    while i < a.len()
        invariant
            i <= a@.len() == b@.len(),
            forall|j: int| 0 <= j < i ==> a@[j] == b@[j],
        decreases a@.len() - i,
    {
        if a[i] != b[i] {
            return false;
        }
        i += 1;
    }
    assert(a@ =~= b@);
    true
}

/// Looks the word up in the table, the case of its letters aside.
pub fn find_substitute(text: &Vec<char>) -> (r: Option<Vec<char>>)
    ensures
        match r {
            Some(v) => substitute(text@) == Some(v@),
            None => substitute(text@) is None,
        },
{
    if text.len() > 5 {
        proof {
            if substitute(text@) is Some {
                lemma_substitute_saves(text@);
                lemma_ascii_byte_len(text@);
            }
        }
        return None;
    }
    let key = lowered_text(text);
    let mut t = substitution_table();
    let mut i: usize = 0;
    while i < t.len()
        invariant
            i <= t@.len() == table().len(),
            forall|j: int|
                0 <= j < t@.len() ==> (#[trigger] t@[j]).0@ == table()[j].0 && t@[j].1@
                    == table()[j].1,
            key@ == lowered(text@),
            substitute(text@) == lookup_from(key@, i as int),
        decreases t@.len() - i,
    {
        if same_text(&t[i].0, &key) {
            let entry = t.remove(i);
            return Some(entry.1);
        }
        i += 1;
    }
    None
}

} // verus!
