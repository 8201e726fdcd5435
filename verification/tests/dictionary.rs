use smooshed_morse::dictionary::{get_code_word_pairs, list_morse_codes, MorseDictionary};

fn pair(w: &str, c: &str) -> (String, String) {
    (w.to_string(), c.to_string())
}

#[test]
fn pairs_from_two_words() {
    assert_eq!(
        get_code_word_pairs("sos\ndog"),
        vec![pair("sos", "...---..."), pair("dog", "-..-----.")]
    );
}

#[test]
fn pairs_from_empty_text() {
    assert_eq!(get_code_word_pairs(""), vec![pair("", "")]);
}

#[test]
fn pairs_keep_a_trailing_empty_line() {
    assert_eq!(get_code_word_pairs("a\n"), vec![pair("a", ".-"), pair("", "")]);
}

#[test]
fn pairs_collapse_duplicate_words() {
    assert_eq!(
        get_code_word_pairs("a\nb\na"),
        vec![pair("a", ".-"), pair("b", "-...")]
    );
}

#[test]
fn codes_keep_every_line() {
    assert_eq!(
        list_morse_codes("a\nb\na".to_string()),
        vec![".-".to_string(), "-...".to_string(), ".-".to_string()]
    );
}

#[test]
fn codes_of_empty_text() {
    assert_eq!(list_morse_codes(String::new()), vec![String::new()]);
}

#[test]
fn dictionary_from_text() {
    let dict = MorseDictionary::from("sos\ndog".to_string());
    assert_eq!(dict.pairs, vec![pair("sos", "...---..."), pair("dog", "-..-----.")]);
}
