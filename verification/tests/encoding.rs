use smooshed_morse::encoding::{count_occurences, to_morse};

#[test]
fn encode_is_deterministic() {
    assert_eq!(to_morse("hello"), to_morse("hello"));
    assert_eq!(to_morse("sos"), to_morse("sos"));
}

#[test]
fn encode_empty_word() {
    assert_eq!(to_morse(""), "");
}

#[test]
fn encode_is_case_insensitive() {
    assert_eq!(to_morse("ABC"), to_morse("abc"));
    assert_eq!(to_morse("SoS"), to_morse("sos"));
}

#[test]
fn encode_sos() {
    assert_eq!(to_morse("sos"), "...---...");
}

#[test]
fn encode_length_is_sum_of_letter_lengths() {
    // s, o, s encode to 3 symbols each.
    assert_eq!(to_morse("sos").len(), 9);
    // a encodes to 2 symbols, b to 4.
    assert_eq!(to_morse("ab").len(), 6);
}

#[test]
fn encode_produces_only_dots_and_dashes() {
    for c in to_morse("the quick brown fox").chars() {
        assert!(c == '.' || c == '-');
    }
}

#[test]
fn encode_drops_characters_outside_the_alphabet() {
    assert_eq!(to_morse("a b1c"), to_morse("abc"));
    assert_eq!(to_morse("?!,"), "");
}

#[test]
fn count_occurences_counts_one_character() {
    assert_eq!(count_occurences("...---...", '.'), 6);
    assert_eq!(count_occurences("...---...", '-'), 3);
    assert_eq!(count_occurences("...---...", 'x'), 0);
    assert_eq!(count_occurences("", '.'), 0);
}
