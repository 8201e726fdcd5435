//! General properties of the encoder, stated and proved once: the code of
//! the empty word, case-insensitivity, the length of a word's code, the
//! two-symbol alphabet of every code, and how dots and dashes partition a
//! code's length.

use vstd::prelude::*;

use crate::encoding::{morse_of, morse_seq, occurrences};

verus! {

/// Whether every character of `s` is a Morse symbol: a dot or a dash.
pub open spec fn is_morse_chars(s: Seq<char>) -> bool {
    forall|i: int| 0 <= i < s.len() ==> s[i] == '.' || s[i] == '-'
}

/// The empty word encodes to the empty code.
pub proof fn lemma_morse_seq_empty()
    ensures
        morse_seq(Seq::<char>::empty()) == Seq::<char>::empty(),
{
}

/// ASCII case folding of a single character: uppercase Latin letters map to
/// their lowercase forms, everything else is left alone.
pub open spec fn lower_char(c: char) -> char {
    if c == 'A' {
        'a'
    } else if c == 'B' {
        'b'
    } else if c == 'C' {
        'c'
    } else if c == 'D' {
        'd'
    } else if c == 'E' {
        'e'
    } else if c == 'F' {
        'f'
    } else if c == 'G' {
        'g'
    } else if c == 'H' {
        'h'
    } else if c == 'I' {
        'i'
    } else if c == 'J' {
        'j'
    } else if c == 'K' {
        'k'
    } else if c == 'L' {
        'l'
    } else if c == 'M' {
        'm'
    } else if c == 'N' {
        'n'
    } else if c == 'O' {
        'o'
    } else if c == 'P' {
        'p'
    } else if c == 'Q' {
        'q'
    } else if c == 'R' {
        'r'
    } else if c == 'S' {
        's'
    } else if c == 'T' {
        't'
    } else if c == 'U' {
        'u'
    } else if c == 'V' {
        'v'
    } else if c == 'W' {
        'w'
    } else if c == 'X' {
        'x'
    } else if c == 'Y' {
        'y'
    } else if c == 'Z' {
        'z'
    } else {
        c
    }
}

/// The table looks characters up case-insensitively.
pub proof fn lemma_morse_of_case_insensitive(c: char)
    ensures
        morse_of(lower_char(c)) == morse_of(c),
{
}

/// Case-insensitivity of the encoder: a word and its case-folded form
/// encode to the same code.
pub proof fn lemma_morse_seq_case_insensitive(w: Seq<char>)
    ensures
        morse_seq(w.map_values(|c: char| lower_char(c))) == morse_seq(w),
    decreases w.len(),
{
    let f = |c: char| lower_char(c);
    if w.len() == 0 {
        assert(w.map_values(f) =~= Seq::<char>::empty());
    } else {
        lemma_morse_seq_case_insensitive(w.drop_last());
        assert(w.map_values(f).drop_last() =~= w.drop_last().map_values(f));
        assert(w.map_values(f).last() == lower_char(w.last()));
        lemma_morse_of_case_insensitive(w.last());
    }
}

/// The sum of the per-letter code lengths over a word.
pub open spec fn morse_len_sum(w: Seq<char>) -> nat
    decreases w.len(),
{
    if w.len() == 0 {
        0
    } else {
        morse_len_sum(w.drop_last()) + morse_of(w.last()).len()
    }
}

/// The length of a word's code is the sum of its letters' code lengths.
pub proof fn lemma_morse_seq_len(w: Seq<char>)
    ensures
        morse_seq(w).len() == morse_len_sum(w),
    decreases w.len(),
{
    if w.len() > 0 {
        lemma_morse_seq_len(w.drop_last());
    }
}

/// Every table entry consists of dots and dashes alone.
pub proof fn lemma_morse_of_chars(c: char)
    ensures
        is_morse_chars(morse_of(c)),
{
    reveal_strlit(".-");
    reveal_strlit("-...");
    reveal_strlit("-.-.");
    reveal_strlit("-..");
    reveal_strlit(".");
    reveal_strlit("..-.");
    reveal_strlit("--.");
    reveal_strlit("....");
    reveal_strlit("..");
    reveal_strlit(".---");
    reveal_strlit("-.-");
    reveal_strlit(".-..");
    reveal_strlit("--");
    reveal_strlit("-.");
    reveal_strlit("---");
    reveal_strlit(".--.");
    reveal_strlit("--.-");
    reveal_strlit(".-.");
    reveal_strlit("...");
    reveal_strlit("-");
    reveal_strlit("..-");
    reveal_strlit("...-");
    reveal_strlit(".--");
    reveal_strlit("-..-");
    reveal_strlit("-.--");
    reveal_strlit("--..");
}

/// Every character of every word's code is a dot or a dash.
pub proof fn lemma_morse_seq_chars(w: Seq<char>)
    ensures
        is_morse_chars(morse_seq(w)),
    decreases w.len(),
{
    if w.len() > 0 {
        lemma_morse_seq_chars(w.drop_last());
        lemma_morse_of_chars(w.last());
        let a = morse_seq(w.drop_last());
        let b = morse_of(w.last());
        assert forall|i: int| 0 <= i < (a + b).len() implies (a + b)[i] == '.' || (a + b)[i]
            == '-' by {
            if i < a.len() {
                assert((a + b)[i] == a[i]);
            } else {
                assert((a + b)[i] == b[i - a.len()]);
            }
        }
    }
}

/// No character occurs more often than the string is long.
pub proof fn lemma_occurrences_le(s: Seq<char>, c: char)
    ensures
        occurrences(s, c) <= s.len(),
    decreases s.len(),
{
    if s.len() > 0 {
        lemma_occurrences_le(s.drop_last(), c);
    }
}

/// Dots and dashes partition the length of a string drawn from the Morse
/// alphabet.
pub proof fn lemma_morse_partition(s: Seq<char>)
    requires
        is_morse_chars(s),
    ensures
        occurrences(s, '.') + occurrences(s, '-') == s.len(),
    decreases s.len(),
{
    if s.len() > 0 {
        assert(is_morse_chars(s.drop_last())) by {
            assert forall|i: int| 0 <= i < s.drop_last().len() implies s.drop_last()[i] == '.'
                || s.drop_last()[i] == '-' by {
                assert(s.drop_last()[i] == s[i]);
            }
        }
        lemma_morse_partition(s.drop_last());
        assert(s[s.len() - 1] == '.' || s[s.len() - 1] == '-');
    }
}

} // verus!
