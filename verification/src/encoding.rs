//! The Morse encoder: a fixed per-letter substitution table, extended to
//! whole words by concatenation.
//!
//! Word lengths are measured in characters throughout the library; the word
//! lists it is meant for are plain ASCII, where characters and bytes agree.

use vstd::prelude::*;

verus! {

/// The Morse code of a single character: the fixed 26-entry table, looked up
/// case-insensitively. Characters outside the Latin alphabet contribute
/// nothing (the empty sequence), they are dropped rather than rejected.
pub open spec fn morse_of(c: char) -> Seq<char> {
    if c == 'a' || c == 'A' {
        ".-"@
    } else if c == 'b' || c == 'B' {
        "-..."@
    } else if c == 'c' || c == 'C' {
        "-.-."@
    } else if c == 'd' || c == 'D' {
        "-.."@
    } else if c == 'e' || c == 'E' {
        "."@
    } else if c == 'f' || c == 'F' {
        "..-."@
    } else if c == 'g' || c == 'G' {
        "--."@
    } else if c == 'h' || c == 'H' {
        "...."@
    } else if c == 'i' || c == 'I' {
        ".."@
    } else if c == 'j' || c == 'J' {
        ".---"@
    } else if c == 'k' || c == 'K' {
        "-.-"@
    } else if c == 'l' || c == 'L' {
        ".-.."@
    } else if c == 'm' || c == 'M' {
        "--"@
    } else if c == 'n' || c == 'N' {
        "-."@
    } else if c == 'o' || c == 'O' {
        "---"@
    } else if c == 'p' || c == 'P' {
        ".--."@
    } else if c == 'q' || c == 'Q' {
        "--.-"@
    } else if c == 'r' || c == 'R' {
        ".-."@
    } else if c == 's' || c == 'S' {
        "..."@
    } else if c == 't' || c == 'T' {
        "-"@
    } else if c == 'u' || c == 'U' {
        "..-"@
    } else if c == 'v' || c == 'V' {
        "...-"@
    } else if c == 'w' || c == 'W' {
        ".--"@
    } else if c == 'x' || c == 'X' {
        "-..-"@
    } else if c == 'y' || c == 'Y' {
        "-.--"@
    } else if c == 'z' || c == 'Z' {
        "--.."@
    } else {
        Seq::<char>::empty()
    }
}

/// The Morse code of a whole word: the codes of its characters, concatenated
/// in order with no separator.
pub open spec fn morse_seq(word: Seq<char>) -> Seq<char>
    decreases word.len(),
{
    if word.len() == 0 {
        Seq::<char>::empty()
    } else {
        morse_seq(word.drop_last()) + morse_of(word.last())
    }
}

/// How many times character `c` occurs in `s`.
pub open spec fn occurrences(s: Seq<char>, c: char) -> nat
    decreases s.len(),
{
    if s.len() == 0 {
        0
    } else {
        occurrences(s.drop_last(), c) + if s.last() == c {
            1nat
        } else {
            0nat
        }
    }
}

/// The table entry for one character, as an executable string slice.
fn letter_code(c: char) -> (r: &'static str)
    ensures
        r@ == morse_of(c),
{
    let r: &'static str = match c {
        'a' | 'A' => ".-",
        'b' | 'B' => "-...",
        'c' | 'C' => "-.-.",
        'd' | 'D' => "-..",
        'e' | 'E' => ".",
        'f' | 'F' => "..-.",
        'g' | 'G' => "--.",
        'h' | 'H' => "....",
        'i' | 'I' => "..",
        'j' | 'J' => ".---",
        'k' | 'K' => "-.-",
        'l' | 'L' => ".-..",
        'm' | 'M' => "--",
        'n' | 'N' => "-.",
        'o' | 'O' => "---",
        'p' | 'P' => ".--.",
        'q' | 'Q' => "--.-",
        'r' | 'R' => ".-.",
        's' | 'S' => "...",
        't' | 'T' => "-",
        'u' | 'U' => "..-",
        'v' | 'V' => "...-",
        'w' | 'W' => ".--",
        'x' | 'X' => "-..-",
        'y' | 'Y' => "-.--",
        'z' | 'Z' => "--..",
        _ => "",
    };
    proof {
        reveal_strlit("");
        assert(""@ =~= Seq::<char>::empty());
    }
    r
}

/// Encodes a word as Morse code: the table entries of its characters,
/// concatenated; characters outside a-z and A-Z are dropped.
pub fn to_morse(word: &str) -> (r: String)
    ensures
        r@ == morse_seq(word@),
{
    let n = word.unicode_len();
    let mut morse = String::new();
    let mut i: usize = 0;
    while i < n
        invariant
            i <= n,
            n == word@.len(),
            morse@ == morse_seq(word@.subrange(0, i as int)),
        decreases n - i,
    {
        let c = word.get_char(i);
        morse.append(letter_code(c));
        i = i + 1;
        proof {
            let prefix = word@.subrange(0, i as int);
            assert(prefix.drop_last() =~= word@.subrange(0, i - 1));
            assert(prefix.last() == word@[i - 1]);
        }
    }
    proof {
        assert(word@.subrange(0, n as int) =~= word@);
    }
    morse
}

/// Counts the occurrences of character `c` in `s`.
pub fn count_occurences(s: &str, c: char) -> (r: usize)
    ensures
        r == occurrences(s@, c),
{
    let n = s.unicode_len();
    let mut count: usize = 0;
    let mut i: usize = 0;
    while i < n
        invariant
            i <= n,
            n == s@.len(),
            count <= i,
            count == occurrences(s@.subrange(0, i as int), c),
        decreases n - i,
    {
        if s.get_char(i) == c {
            count = count + 1;
        }
        i = i + 1;
        proof {
            let prefix = s@.subrange(0, i as int);
            assert(prefix.drop_last() =~= s@.subrange(0, i - 1));
            assert(prefix.last() == s@[i - 1]);
        }
    }
    proof {
        assert(s@.subrange(0, n as int) =~= s@);
    }
    count
}

} // verus!
