use crunch_str::crunch;

#[test]
fn doesnt_shorten_string_less_than_target_size() {
    assert_eq!(crunch("foo", 30), "foo");
}

#[test]
fn doesnt_shorten_strings_at_target_size() {
    assert_eq!(crunch("foo", 3), "foo");
}

#[test]
fn lib_removes_double_letters() {
    assert_eq!(crunch("bookkeepers", 8), "bokepers");
}

#[test]
fn removes_inner_word_vowels() {
    assert_eq!(crunch("band", 3), "bnd");
}

#[test]
fn removes_inner_word_consonants() {
    assert_eq!(crunch("qwerty", 2), "qy");
}

#[test]
fn bookkeeper_to_four() {
    assert_eq!(crunch("bookkeeper", 4), "bkpr");
}

#[test]
fn empty_input() {
    assert_eq!(crunch("", 0), "");
    assert_eq!(crunch("", 5), "");
}

#[test]
fn zero_target() {
    assert_eq!(crunch("a", 0), "A");
    assert_eq!(crunch("!", 0), "");
    assert_eq!(crunch("hello world", 0), "HW");
}

#[test]
fn no_op_keeps_whitespace_as_it_is() {
    assert_eq!(crunch("a\tb\n c  ", 8), "a\tb\n c  ");
    assert_eq!(crunch("a\tb\n c  ", 100), "a\tb\n c  ");
}

#[test]
fn substitutable_words_go_first() {
    assert_eq!(crunch("a be creative", 12), "a b creative");
    assert_eq!(crunch("a be creative", 10), "a b crtive");
}

#[test]
fn longest_word_goes_first() {
    assert_eq!(crunch("abc delicious", 12), "abc dlicious");
    assert_eq!(crunch("delicious abc", 12), "dlicious abc");
}

#[test]
fn earlier_word_goes_first_among_equals() {
    assert_eq!(crunch("band bend", 8), "bnd bend");
    assert_eq!(crunch("band bend", 7), "bnd bnd");
    assert_eq!(crunch("band bundt bound", 12), "bnd bdt bund");
}

#[test]
fn spacing_is_kept_between_words() {
    assert_eq!(crunch("delicious  meal", 14), "dlicious  meal");
    assert_eq!(crunch("delicious\tmeal", 13), "dlicious meal");
    assert_eq!(crunch("delicious \u{2003}meal", 16), "dlicious  meal");
}

#[test]
fn falls_back_to_acronym() {
    assert_eq!(
        crunch("a very long string with a lot of words", 5),
        "AVLSWALOW"
    );
    assert_eq!(
        crunch(
            "out of the night that covers me, black as the pit from pole to pole",
            11
        ),
        "OOTNTCMBATPFP2P"
    );
}

#[test]
fn acronym_of_eight_words() {
    let out = crunch("zeta eta theta iota kappa lambda mu nu", 3);
    assert_eq!(out, "ZETIKLMN");
    assert_eq!(out.len(), 8);
}

#[test]
fn stops_as_soon_as_target_is_met() {
    assert_eq!(crunch("how are your metrics?", 20), "how are ur metrics?");
    assert_eq!(crunch("how are your metrics?", 18), "how r ur metrics?");
    assert_eq!(crunch("how are your metrics?", 13), "how r ur mcs?");
}

#[test]
fn result_is_never_longer_than_input() {
    let inputs = [
        "",
        " ",
        "a",
        "hello and good morning, Team Raven",
        "'Twas brillig, and the slithy toves",
        "\u{e9}t\u{e9} \u{2003} caf\u{e9}",
        "1234 5678",
    ];
    for input in inputs {
        for target in 0..40 {
            let out = crunch(input, target);
            assert!(out.len() <= input.len(), "{input:?} {target}");
            if input.len() <= target {
                assert_eq!(out, input);
            }
            if out.len() <= target {
                assert_eq!(crunch(&out, target), out);
            }
        }
    }
}
