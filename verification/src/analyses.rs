//! Read-only analyses over the dictionary: aggregate symbol counts, the most
//! frequent code, dash runs, balanced words, and palindromic codes.
//!
//! Each analysis scans the dictionary (or a code list) in its stored order,
//! so every result is deterministic.

use vstd::prelude::*;

use crate::dictionary::{dedup_first, lemma_dedup_first_contains, MorseDictionary};
use crate::encoding::{count_occurences, morse_seq, occurrences};
use crate::laws::{
    is_morse_chars, lemma_morse_partition, lemma_morse_seq_chars, lemma_occurrences_le,
};

verus! {

/// Whether every position of the window `[k, k + n)` of `s` holds a dash.
pub open spec fn window_all_dash(s: Seq<char>, k: int, n: int) -> bool {
    forall|j: int| k <= j < k + n ==> s[j] == '-'
}

/// Whether `s` contains a contiguous run of at least `n` dashes. A run
/// longer than `n` qualifies, since it contains an `n`-length window.
pub open spec fn has_dash_run(s: Seq<char>, n: int) -> bool {
    exists|k: int| 0 <= k && k + n <= s.len() && window_all_dash(s, k, n)
}

/// Whether the code contains a contiguous run of at least `n` dashes.
pub fn code_contains_n_dashes(s: &str, n: usize) -> (r: bool)
    ensures
        r == has_dash_run(s@, n as int),
{
    if n == 0 {
        proof {
            assert(window_all_dash(s@, 0, 0));
        }
        return true;
    }
    let len = s.unicode_len();
    let mut run: usize = 0;
    let mut i: usize = 0;
    while i < len
        invariant
            n >= 1,
            run <= i <= len,
            len == s@.len(),
            run < n,
            forall|j: int| i - run <= j < i ==> s@[j] == '-',
            run < i ==> s@[i - run - 1] != '-',
            forall|k: int|
                0 <= k && k + n <= i ==> !(#[trigger] window_all_dash(s@, k, n as int)),
        decreases len - i,
    {
        if s.get_char(i) == '-' {
            run = run + 1;
            if run == n {
                proof {
                    assert(window_all_dash(s@, i + 1 - n, n as int));
                }
                return true;
            }
            proof {
                assert forall|k: int| 0 <= k && k + n <= i + 1 implies !(#[trigger] window_all_dash(
                    s@,
                    k,
                    n as int,
                )) by {
                    if k + n == i + 1 {
                        assert(k <= i - run);
                        assert(s@[i - run as int] != '-');
                    }
                }
            }
        } else {
            proof {
                assert forall|k: int| 0 <= k && k + n <= i + 1 implies !(#[trigger] window_all_dash(
                    s@,
                    k,
                    n as int,
                )) by {
                    if k + n == i + 1 {
                        assert(s@[i as int] != '-');
                    }
                }
            }
            run = 0;
        }
        i = i + 1;
    }
    false
}

/// Whether the word has exactly `n` characters.
pub fn word_contains_n_chars(s: &str, n: usize) -> (r: bool)
    ensures
        r == (s@.len() == n),
{
    s.unicode_len() == n
}

/// Whether the code holds as many dots as dashes.
pub fn morse_code_contains_equal_chars(code: &str) -> (r: bool)
    ensures
        r == (occurrences(code@, '.') == occurrences(code@, '-')),
{
    let dots = count_occurences(code, '.');
    let dashes = count_occurences(code, '-');
    dots == dashes
}

/// Whether the code reads identically forward and backward.
pub fn morse_code_is_palindrome(code: &str) -> (r: bool)
    ensures
        r == (code@ == code@.reverse()),
{
    let len = code.unicode_len();
    let mut i: usize = 0;
    while i < len / 2
        invariant
            i <= len,
            len == code@.len(),
            forall|j: int| 0 <= j < i ==> #[trigger] code@[j] == code@[len - 1 - j],
        decreases len - i,
    {
        if code.get_char(i) != code.get_char(len - 1 - i) {
            proof {
                assert(code@.reverse()[i as int] == code@[len - 1 - i]);
            }
            return false;
        }
        i = i + 1;
    }
    proof {
        assert forall|j: int| 0 <= j < len implies code@.reverse()[j] == code@[j] by {
            assert(code@.reverse()[j] == code@[len - 1 - j]);
            if j >= len - 1 - j {
                let j2 = len - 1 - j;
                assert(0 <= j2 < len);
                if j2 < j {
                    assert(code@[j2] == code@[len - 1 - j2]);
                }
            }
        }
        assert(code@ =~= code@.reverse());
    }
    true
}

/// How many entries of `codes` equal `code`.
pub open spec fn count_in(codes: Seq<Seq<char>>, code: Seq<char>) -> nat
    decreases codes.len(),
{
    if codes.len() == 0 {
        0
    } else {
        count_in(codes.drop_last(), code) + if codes.last() == code {
            1nat
        } else {
            0nat
        }
    }
}

/// An element occurs a positive number of times exactly when the sequence
/// contains it.
pub proof fn lemma_count_in_contains(codes: Seq<Seq<char>>, code: Seq<char>)
    ensures
        count_in(codes, code) > 0 <==> codes.contains(code),
    decreases codes.len(),
{
    if codes.len() > 0 {
        lemma_count_in_contains(codes.drop_last(), code);
        if codes.contains(code) {
            let i = choose|i: int| 0 <= i < codes.len() && codes[i] == code;
            if i < codes.len() - 1 {
                assert(codes.drop_last()[i] == code);
            }
        }
        if codes.drop_last().contains(code) {
            let i = choose|i: int|
                0 <= i < codes.drop_last().len() && codes.drop_last()[i] == code;
            assert(codes[i] == code);
        }
    }
}

/// The keys of a grouped sequence, in order.
pub open spec fn keys_of(groups: Seq<(Seq<char>, usize)>) -> Seq<Seq<char>> {
    groups.map_values(|g: (Seq<char>, usize)| g.0)
}

/// Counts the entries of `codes` equal to `c`.
fn count_code(codes: &Vec<String>, c: &String) -> (r: usize)
    ensures
        r == count_in(codes.deep_view(), c@),
{
    let n = codes.len();
    let mut count: usize = 0;
    let mut j: usize = 0;
    proof {
        assert(codes.deep_view().subrange(0, 0) =~= Seq::<Seq<char>>::empty());
    }
    while j < n
        invariant
            j <= n,
            n == codes@.len(),
            count <= j,
            count == count_in(codes.deep_view().subrange(0, j as int), c@),
        decreases n - j,
    {
        if codes[j] == *c {
            count = count + 1;
        }
        j = j + 1;
        proof {
            let prefix = codes.deep_view().subrange(0, j as int);
            assert(prefix.drop_last() =~= codes.deep_view().subrange(0, j - 1));
            assert(prefix.last() == codes.deep_view()[j - 1]);
        }
    }
    proof {
        assert(codes.deep_view().subrange(0, n as int) =~= codes.deep_view());
    }
    count
}

/// Whether `c` is already a key among `groups`.
fn contains_key(groups: &Vec<(String, usize)>, c: &String) -> (r: bool)
    ensures
        r == keys_of(groups.deep_view()).contains(c@),
{
    let n = groups.len();
    let mut j: usize = 0;
    while j < n
        invariant
            j <= n,
            n == groups@.len(),
            forall|k: int| 0 <= k < j ==> (#[trigger] groups.deep_view()[k]).0 != c@,
        decreases n - j,
    {
        if groups[j].0 == *c {
            proof {
                assert(keys_of(groups.deep_view())[j as int] == c@);
            }
            return true;
        }
        j = j + 1;
    }
    proof {
        assert forall|k: int| 0 <= k < keys_of(groups.deep_view()).len() implies #[trigger] keys_of(
            groups.deep_view(),
        )[k] != c@ by {
            assert(keys_of(groups.deep_view())[k] == groups.deep_view()[k].0);
        }
    }
    false
}

/// Groups equal codes: one entry per distinct code, in first-occurrence
/// order, each with the number of times it occurs in `codes`.
pub fn group_morse_codes(codes: Vec<String>) -> (r: Vec<(String, usize)>)
    ensures
        keys_of(r.deep_view()) == dedup_first(codes.deep_view()),
        forall|k: int|
            0 <= k < r.deep_view().len() ==> (#[trigger] r.deep_view()[k]).1 == count_in(
                codes.deep_view(),
                r.deep_view()[k].0,
            ),
{
    let ghost cs = codes.deep_view();
    let n = codes.len();
    let mut r: Vec<(String, usize)> = Vec::new();
    let mut i: usize = 0;
    proof {
        assert(cs.subrange(0, 0) =~= Seq::<Seq<char>>::empty());
        assert(keys_of(r.deep_view()) =~= dedup_first(cs.subrange(0, 0)));
    }
    while i < n
        invariant
            i <= n,
            n == codes@.len(),
            cs == codes.deep_view(),
            keys_of(r.deep_view()) == dedup_first(cs.subrange(0, i as int)),
            forall|k: int|
                0 <= k < r.deep_view().len() ==> (#[trigger] r.deep_view()[k]).1 == count_in(
                    cs,
                    r.deep_view()[k].0,
                ),
        decreases n - i,
    {
        let is_old = contains_key(&r, &codes[i]);
        if !is_old {
            let cnt = count_code(&codes, &codes[i]);
            let ghost prev = r.deep_view();
            r.push((codes[i].clone(), cnt));
            proof {
                assert(r.deep_view() =~= prev.push((cs[i as int], cnt)));
                assert(keys_of(r.deep_view()) =~= keys_of(prev).push(cs[i as int]));
            }
        }
        i = i + 1;
        proof {
            let prefix = cs.subrange(0, i as int);
            assert(prefix.drop_last() =~= cs.subrange(0, i - 1));
            assert(prefix.last() == cs[i - 1]);
        }
    }
    proof {
        assert(cs.subrange(0, n as int) =~= cs);
    }
    r
}

/// The most frequent code and its multiplicity: the group with the highest
/// count, and among equally high counts the one whose code occurs first.
/// An empty code list yields the empty code with count zero.
pub fn find_most_common_morse_code(codes: Vec<String>) -> (r: (String, usize))
    ensures
        codes.deep_view().len() == 0 ==> r.1 == 0 && r.0@ == Seq::<char>::empty(),
        codes.deep_view().len() > 0 ==> exists|k: int|
            0 <= k < dedup_first(codes.deep_view()).len() && r.0@ == #[trigger] dedup_first(
                codes.deep_view(),
            )[k] && r.1 == count_in(codes.deep_view(), dedup_first(codes.deep_view())[k]) && (
            forall|j: int|
                0 <= j < k ==> count_in(
                    codes.deep_view(),
                    #[trigger] dedup_first(codes.deep_view())[j],
                ) < r.1),
        forall|c: Seq<char>|
            codes.deep_view().contains(c) ==> #[trigger] count_in(codes.deep_view(), c) <= r.1,
{
    let ghost cs = codes.deep_view();
    let groups = group_morse_codes(codes);
    let n = groups.len();
    let mut best_code = String::new();
    let mut best_count: usize = 0;
    let ghost mut best_k: int = 0;
    let mut t: usize = 0;
    while t < n
        invariant
            t <= n,
            n == groups@.len(),
            keys_of(groups.deep_view()) == dedup_first(cs),
            forall|k: int|
                0 <= k < groups.deep_view().len() ==> (#[trigger] groups.deep_view()[k]).1
                    == count_in(cs, groups.deep_view()[k].0),
            t == 0 ==> best_count == 0 && best_code@ == Seq::<char>::empty(),
            t > 0 ==> 0 <= best_k < t && best_code@ == dedup_first(cs)[best_k] && best_count
                == count_in(cs, dedup_first(cs)[best_k]),
            forall|j: int|
                0 <= j < t ==> count_in(cs, #[trigger] dedup_first(cs)[j]) <= best_count,
            forall|j: int|
                0 <= j < best_k ==> count_in(cs, #[trigger] dedup_first(cs)[j]) < best_count,
        decreases n - t,
    {
        proof {
            assert((#[trigger] groups.deep_view()[t as int]).0 == keys_of(groups.deep_view())[t as int]);
            if t == 0 {
                let key0 = dedup_first(cs)[0];
                assert(dedup_first(cs).contains(key0));
                lemma_dedup_first_contains(cs, key0);
                lemma_count_in_contains(cs, key0);
            }
        }
        let cnt = groups[t].1;
        if cnt > best_count {
            best_code = groups[t].0.clone();
            best_count = cnt;
            proof {
                best_k = t as int;
            }
        }
        t = t + 1;
    }
    proof {
        if cs.len() > 0 {
            assert(cs[cs.len() - 1] == cs.last());
            assert(cs.contains(cs.last()));
            lemma_dedup_first_contains(cs, cs.last());
            assert(dedup_first(cs).len() > 0);
        }
        assert forall|c: Seq<char>| cs.contains(c) implies #[trigger] count_in(cs, c)
            <= best_count by {
            lemma_dedup_first_contains(cs, c);
            let j = choose|j: int| 0 <= j < dedup_first(cs).len() && dedup_first(cs)[j] == c;
            assert(count_in(cs, dedup_first(cs)[j]) <= best_count);
        }
    }
    (best_code, best_count)
}

/// The codes of a pair sequence, in order.
pub open spec fn codes_of(d: Seq<(Seq<char>, Seq<char>)>) -> Seq<Seq<char>> {
    d.map_values(|p: (Seq<char>, Seq<char>)| p.1)
}

/// All the codes, concatenated in order.
pub open spec fn concat_all(codes: Seq<Seq<char>>) -> Seq<char>
    decreases codes.len(),
{
    if codes.len() == 0 {
        Seq::<char>::empty()
    } else {
        concat_all(codes.drop_last()) + codes.last()
    }
}

/// A concatenation of Morse strings is a Morse string.
proof fn lemma_concat_all_morse(codes: Seq<Seq<char>>)
    requires
        forall|k: int| 0 <= k < codes.len() ==> is_morse_chars(#[trigger] codes[k]),
    ensures
        is_morse_chars(concat_all(codes)),
    decreases codes.len(),
{
    if codes.len() > 0 {
        assert forall|k: int| 0 <= k < codes.drop_last().len() implies is_morse_chars(
            #[trigger] codes.drop_last()[k],
        ) by {
            assert(codes.drop_last()[k] == codes[k]);
        }
        lemma_concat_all_morse(codes.drop_last());
        let a = concat_all(codes.drop_last());
        let b = codes.last();
        assert(is_morse_chars(b)) by {
            assert(codes[codes.len() - 1] == b);
        }
        assert forall|i: int| 0 <= i < (a + b).len() implies (a + b)[i] == '.' || (a + b)[i]
            == '-' by {
            if i < a.len() {
                assert((a + b)[i] == a[i]);
            } else {
                assert((a + b)[i] == b[i - a.len()]);
            }
        }
    }
}

/// Aggregate symbol counts over the dictionary: the dots of all codes taken
/// together are counted directly, and the dashes are the remaining length,
/// which is sound because codes hold no third symbol.
pub fn count_symbols(dict: &MorseDictionary) -> (r: (usize, usize))
    requires
        dict.wf(),
    ensures
        r.0 == occurrences(concat_all(codes_of(dict@)), '.'),
        r.1 == occurrences(concat_all(codes_of(dict@)), '-'),
        r.0 + r.1 == concat_all(codes_of(dict@)).len(),
{
    let ghost cs = codes_of(dict@);
    let n = dict.pairs.len();
    let mut combined = String::new();
    let mut i: usize = 0;
    proof {
        assert(cs.subrange(0, 0) =~= Seq::<Seq<char>>::empty());
        assert(combined@ =~= concat_all(cs.subrange(0, 0)));
    }
    while i < n
        invariant
            i <= n,
            n == dict.pairs@.len(),
            cs == codes_of(dict@),
            combined@ == concat_all(cs.subrange(0, i as int)),
        decreases n - i,
    {
        combined.append(dict.pairs[i].1.as_str());
        i = i + 1;
        proof {
            let prefix = cs.subrange(0, i as int);
            assert(prefix.drop_last() =~= cs.subrange(0, i - 1));
            assert(prefix.last() == cs[i - 1]);
            assert(cs[i - 1] == dict@[i - 1].1);
        }
    }
    proof {
        assert(cs.subrange(0, n as int) =~= cs);
    }
    let dots = count_occurences(combined.as_str(), '.');
    let total = combined.as_str().unicode_len();
    proof {
        lemma_occurrences_le(combined@, '.');
        assert forall|k: int| 0 <= k < cs.len() implies is_morse_chars(#[trigger] cs[k]) by {
            assert(cs[k] == dict@[k].1);
            assert(dict@[k].1 == morse_seq(dict@[k].0));
            lemma_morse_seq_chars(dict@[k].0);
        }
        lemma_concat_all_morse(cs);
        lemma_morse_partition(combined@);
    }
    let dashes = total - dots;
    (dots, dashes)
}

/// Every entry whose code contains a contiguous run of at least `n` dashes.
pub fn find_run(dict: &MorseDictionary, n: usize) -> (r: Vec<(String, String)>)
    ensures
        r.deep_view() == dict@.filter(|p: (Seq<char>, Seq<char>)| has_dash_run(p.1, n as int)),
{
    let ghost pred = |p: (Seq<char>, Seq<char>)| has_dash_run(p.1, n as int);
    let m = dict.pairs.len();
    let mut r: Vec<(String, String)> = Vec::new();
    let mut i: usize = 0;
    proof {
        reveal(Seq::filter);
        assert(dict@.subrange(0, 0) =~= Seq::<(Seq<char>, Seq<char>)>::empty());
        assert(r.deep_view() =~= dict@.subrange(0, 0).filter(pred));
    }
    while i < m
        invariant
            i <= m,
            m == dict.pairs@.len(),
            pred == (|p: (Seq<char>, Seq<char>)| has_dash_run(p.1, n as int)),
            r.deep_view() == dict@.subrange(0, i as int).filter(pred),
        decreases m - i,
    {
        let keep = code_contains_n_dashes(dict.pairs[i].1.as_str(), n);
        let ghost prev = r.deep_view();
        if keep {
            r.push((dict.pairs[i].0.clone(), dict.pairs[i].1.clone()));
        }
        i = i + 1;
        proof {
            reveal(Seq::filter);
            let prefix = dict@.subrange(0, i as int);
            assert(prefix.drop_last() =~= dict@.subrange(0, i - 1));
            assert(prefix.last() == dict@[i - 1]);
            assert(dict@[i - 1].0 == dict.pairs@[i - 1].0@);
            assert(dict@[i - 1].1 == dict.pairs@[i - 1].1@);
            assert(pred(dict@[i - 1]) == keep);
            if keep {
                assert(r.deep_view() =~= prev.push(dict@[i - 1]));
            }
        }
    }
    proof {
        assert(dict@.subrange(0, m as int) =~= dict@);
    }
    r
}

/// Every entry whose word has exactly `word_length` characters and whose
/// code holds as many dots as dashes.
pub fn find_balanced(dict: &MorseDictionary, word_length: usize) -> (r: Vec<(String, String)>)
    ensures
        r.deep_view() == dict@.filter(
            |p: (Seq<char>, Seq<char>)|
                p.0.len() == word_length && occurrences(p.1, '.') == occurrences(p.1, '-'),
        ),
{
    let ghost pred = |p: (Seq<char>, Seq<char>)|
        p.0.len() == word_length && occurrences(p.1, '.') == occurrences(p.1, '-');
    let m = dict.pairs.len();
    let mut r: Vec<(String, String)> = Vec::new();
    let mut i: usize = 0;
    proof {
        reveal(Seq::filter);
        assert(dict@.subrange(0, 0) =~= Seq::<(Seq<char>, Seq<char>)>::empty());
        assert(r.deep_view() =~= dict@.subrange(0, 0).filter(pred));
    }
    while i < m
        invariant
            i <= m,
            m == dict.pairs@.len(),
            pred == (|p: (Seq<char>, Seq<char>)|
                p.0.len() == word_length && occurrences(p.1, '.') == occurrences(p.1, '-')),
            r.deep_view() == dict@.subrange(0, i as int).filter(pred),
        decreases m - i,
    {
        let keep = word_contains_n_chars(dict.pairs[i].0.as_str(), word_length)
            && morse_code_contains_equal_chars(dict.pairs[i].1.as_str());
        let ghost prev = r.deep_view();
        if keep {
            r.push((dict.pairs[i].0.clone(), dict.pairs[i].1.clone()));
        }
        i = i + 1;
        proof {
            reveal(Seq::filter);
            let prefix = dict@.subrange(0, i as int);
            assert(prefix.drop_last() =~= dict@.subrange(0, i - 1));
            assert(prefix.last() == dict@[i - 1]);
            assert(dict@[i - 1].0 == dict.pairs@[i - 1].0@);
            assert(dict@[i - 1].1 == dict.pairs@[i - 1].1@);
            assert(pred(dict@[i - 1]) == keep);
            if keep {
                assert(r.deep_view() =~= prev.push(dict@[i - 1]));
            }
        }
    }
    proof {
        assert(dict@.subrange(0, m as int) =~= dict@);
    }
    r
}

/// Every entry whose word has exactly `word_length` characters and whose
/// code reads identically forward and backward.
pub fn find_palindrome(dict: &MorseDictionary, word_length: usize) -> (r: Vec<(String, String)>)
    ensures
        r.deep_view() == dict@.filter(
            |p: (Seq<char>, Seq<char>)| p.0.len() == word_length && p.1 == p.1.reverse(),
        ),
{
    let ghost pred = |p: (Seq<char>, Seq<char>)| p.0.len() == word_length && p.1 == p.1.reverse();
    let m = dict.pairs.len();
    let mut r: Vec<(String, String)> = Vec::new();
    let mut i: usize = 0;
    proof {
        reveal(Seq::filter);
        assert(dict@.subrange(0, 0) =~= Seq::<(Seq<char>, Seq<char>)>::empty());
        assert(r.deep_view() =~= dict@.subrange(0, 0).filter(pred));
    }
    while i < m
        invariant
            i <= m,
            m == dict.pairs@.len(),
            pred == (|p: (Seq<char>, Seq<char>)| p.0.len() == word_length && p.1 == p.1.reverse()),
            r.deep_view() == dict@.subrange(0, i as int).filter(pred),
        decreases m - i,
    {
        let keep = word_contains_n_chars(dict.pairs[i].0.as_str(), word_length)
            && morse_code_is_palindrome(dict.pairs[i].1.as_str());
        let ghost prev = r.deep_view();
        if keep {
            r.push((dict.pairs[i].0.clone(), dict.pairs[i].1.clone()));
        }
        i = i + 1;
        proof {
            reveal(Seq::filter);
            let prefix = dict@.subrange(0, i as int);
            assert(prefix.drop_last() =~= dict@.subrange(0, i - 1));
            assert(prefix.last() == dict@[i - 1]);
            assert(dict@[i - 1].0 == dict.pairs@[i - 1].0@);
            assert(dict@[i - 1].1 == dict.pairs@[i - 1].1@);
            assert(pred(dict@[i - 1]) == keep);
            if keep {
                assert(r.deep_view() =~= prev.push(dict@[i - 1]));
            }
        }
    }
    proof {
        assert(dict@.subrange(0, m as int) =~= dict@);
    }
    r
}

} // verus!
