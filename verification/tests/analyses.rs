use smooshed_morse::analyses::{
    code_contains_n_dashes, count_symbols, find_balanced, find_most_common_morse_code,
    find_palindrome, find_run, group_morse_codes, morse_code_contains_equal_chars,
    morse_code_is_palindrome, word_contains_n_chars,
};
use smooshed_morse::dictionary::{list_morse_codes, MorseDictionary};
use smooshed_morse::encoding::to_morse;

fn pair(w: &str, c: &str) -> (String, String) {
    (w.to_string(), c.to_string())
}

#[test]
fn group_counts_equal_codes() {
    let codes = vec![".-".to_string(), "-...".to_string(), ".-".to_string()];
    assert_eq!(
        group_morse_codes(codes),
        vec![(".-".to_string(), 2), ("-...".to_string(), 1)]
    );
}

#[test]
fn group_of_no_codes_is_empty() {
    assert_eq!(group_morse_codes(Vec::new()), Vec::new());
}

#[test]
fn four_words_share_one_code() {
    let words = ["needing", "nervate", "niding", "tiling"];
    for w in words {
        assert_eq!(to_morse(w), "-...-....-.--.");
    }
    let codes = list_morse_codes("needing\nnervate\nniding\ntiling\nsos".to_string());
    let (code, count) = find_most_common_morse_code(codes);
    assert_eq!(code, "-...-....-.--.");
    assert!(count >= 4);
    assert_eq!(count, 4);
}

#[test]
fn most_common_of_no_codes() {
    let (code, count) = find_most_common_morse_code(Vec::new());
    assert_eq!(code, "");
    assert_eq!(count, 0);
}

#[test]
fn count_symbols_over_one_word() {
    let dict = MorseDictionary::from("sos".to_string());
    assert_eq!(count_symbols(&dict), (6, 3));
}

#[test]
fn count_symbols_partitions_the_total_length() {
    let dict = MorseDictionary::from("sos\nabc".to_string());
    let total: usize = dict.pairs.iter().map(|p| p.1.len()).sum();
    let (dots, dashes) = count_symbols(&dict);
    assert_eq!(dots + dashes, total);
}

#[test]
fn dash_runs_are_found_at_the_exact_length() {
    let code = to_morse("autotomous");
    assert_eq!(code, ".-..--------------..-...");
    assert!(code_contains_n_dashes(&code, 14));
    assert!(!code_contains_n_dashes(&code, 15));
    assert!(code_contains_n_dashes(&code, 0));
}

#[test]
fn find_run_keeps_only_long_runs() {
    let dict = MorseDictionary::from("autotomous\nsos".to_string());
    assert_eq!(
        find_run(&dict, 14),
        vec![pair("autotomous", ".-..--------------..-...")]
    );
    assert_eq!(find_run(&dict, 15), Vec::new());
}

#[test]
fn word_length_is_checked_exactly() {
    assert!(word_contains_n_chars("sos", 3));
    assert!(!word_contains_n_chars("sos", 4));
    assert!(word_contains_n_chars("", 0));
}

#[test]
fn balance_compares_dots_and_dashes() {
    assert!(morse_code_contains_equal_chars(".-"));
    assert!(morse_code_contains_equal_chars(""));
    assert!(!morse_code_contains_equal_chars("..-"));
}

#[test]
fn find_balanced_checks_word_length_and_balance() {
    let dict = MorseDictionary::from("a\nt\ne".to_string());
    assert_eq!(find_balanced(&dict, 1), vec![pair("a", ".-")]);
    assert_eq!(find_balanced(&dict, 2), Vec::new());
}

#[test]
fn palindrome_predicate_reads_both_ways() {
    assert!(morse_code_is_palindrome(""));
    assert!(morse_code_is_palindrome("...---..."));
    assert!(!morse_code_is_palindrome("..-"));
}

#[test]
fn protectorate_encodes_to_a_palindrome() {
    let code = to_morse("protectorate");
    assert_eq!(code, ".--..-.----.-.-.----.-..--.");
    assert!(morse_code_is_palindrome(&code));
}

#[test]
fn find_palindrome_respects_the_word_length() {
    let dict = MorseDictionary::from("protectorate\nsos".to_string());
    // protectorate has 12 letters, so a 13-letter scan must not report it.
    assert_eq!(find_palindrome(&dict, 13), Vec::new());
    assert_eq!(
        find_palindrome(&dict, 12),
        vec![pair("protectorate", ".--..-.----.-.-.----.-..--.")]
    );
}

#[test]
fn empty_input_yields_empty_analyses() {
    let dict = MorseDictionary::from(String::new());
    assert_eq!(count_symbols(&dict), (0, 0));
    assert_eq!(find_run(&dict, 15), Vec::new());
    assert_eq!(find_balanced(&dict, 21), Vec::new());
    assert_eq!(find_palindrome(&dict, 13), Vec::new());
}
