//! The dictionary: `(word, code)` pairs built from newline-delimited text.
//!
//! The source text is split on `'\n'` exactly as it stands, so an empty text
//! yields one entry for the empty word, and a trailing newline yields a final
//! empty-word entry. Words are kept in first-occurrence order, one entry per
//! distinct word; a repeated word adds nothing new, since its code is
//! determined by the word alone.

use vstd::prelude::*;

use crate::encoding::{morse_seq, to_morse};

verus! {

/// The pieces of `s` between newline characters, in order. Splitting the
/// empty sequence yields one empty piece, and every `'\n'` ends a piece, so
/// the result always holds one piece more than `s` holds newlines.
pub open spec fn split_lines(s: Seq<char>) -> Seq<Seq<char>>
    decreases s.len(),
{
    if s.len() == 0 {
        seq![Seq::<char>::empty()]
    } else if s.last() == '\n' {
        split_lines(s.drop_last()).push(Seq::<char>::empty())
    } else {
        let prev = split_lines(s.drop_last());
        prev.update(prev.len() - 1, prev.last().push(s.last()))
    }
}

/// Keeps the first occurrence of each element and drops later repeats.
pub open spec fn dedup_first(ws: Seq<Seq<char>>) -> Seq<Seq<char>>
    decreases ws.len(),
{
    if ws.len() == 0 {
        Seq::<Seq<char>>::empty()
    } else {
        let prev = dedup_first(ws.drop_last());
        if prev.contains(ws.last()) {
            prev
        } else {
            prev.push(ws.last())
        }
    }
}

/// Deduplication keeps exactly the elements of the original sequence.
pub proof fn lemma_dedup_first_contains(ws: Seq<Seq<char>>, w: Seq<char>)
    ensures
        dedup_first(ws).contains(w) <==> ws.contains(w),
    decreases ws.len(),
{
    if ws.len() > 0 {
        let tail = ws.drop_last();
        let last = ws.last();
        lemma_dedup_first_contains(tail, w);
        lemma_dedup_first_contains(tail, last);
        let prev = dedup_first(tail);
        assert(ws.contains(w) <==> tail.contains(w) || w == last) by {
            if ws.contains(w) {
                let i = choose|i: int| 0 <= i < ws.len() && ws[i] == w;
                if i < ws.len() - 1 {
                    assert(tail[i] == w);
                }
            }
            if tail.contains(w) {
                let i = choose|i: int| 0 <= i < tail.len() && tail[i] == w;
                assert(ws[i] == w);
            }
            assert(ws[ws.len() - 1] == last);
        }
        if !prev.contains(last) {
            assert(prev.push(last).contains(w) <==> prev.contains(w) || w == last) by {
                if prev.contains(w) {
                    let i = choose|i: int| 0 <= i < prev.len() && prev[i] == w;
                    assert(prev.push(last)[i] == w);
                }
                assert(prev.push(last)[prev.len() as int] == last);
                if prev.push(last).contains(w) {
                    let i = choose|i: int| 0 <= i < prev.push(last).len() && prev.push(last)[i]
                        == w;
                    if i < prev.len() {
                        assert(prev[i] == w);
                    }
                }
            }
        }
    }
}

/// Deduplication leaves no element twice.
pub proof fn lemma_dedup_first_distinct(ws: Seq<Seq<char>>)
    ensures
        forall|j: int, k: int|
            #![trigger dedup_first(ws)[j], dedup_first(ws)[k]]
            0 <= j < k < dedup_first(ws).len() ==> dedup_first(ws)[j] != dedup_first(ws)[k],
    decreases ws.len(),
{
    if ws.len() > 0 {
        let tail = ws.drop_last();
        let last = ws.last();
        lemma_dedup_first_distinct(tail);
        let prev = dedup_first(tail);
        if !prev.contains(last) {
            assert forall|j: int, k: int|
                0 <= j < k < prev.push(last).len() implies #[trigger] prev.push(last)[j]
                != #[trigger] prev.push(last)[k] by {
                if k < prev.len() {
                    assert(prev.push(last)[j] == prev[j]);
                    assert(prev.push(last)[k] == prev[k]);
                } else {
                    assert(prev.push(last)[j] == prev[j]);
                    assert(prev.push(last)[k] == last);
                    assert(prev.contains(prev[j]));
                }
            }
        }
    }
}

/// The words of a pair sequence, in order.
pub open spec fn words_of(d: Seq<(Seq<char>, Seq<char>)>) -> Seq<Seq<char>> {
    d.map_values(|p: (Seq<char>, Seq<char>)| p.0)
}

/// The dictionary a text denotes: its distinct lines in first-occurrence
/// order, each paired with the Morse code of the whole line.
pub open spec fn dict_of(text: Seq<char>) -> Seq<(Seq<char>, Seq<char>)> {
    dedup_first(split_lines(text)).map_values(|w: Seq<char>| (w, morse_seq(w)))
}

/// Whether `w` is already a key among `pairs`.
fn contains_word(pairs: &Vec<(String, String)>, w: &String) -> (r: bool)
    ensures
        r == words_of(pairs.deep_view()).contains(w@),
{
    let n = pairs.len();
    let mut j: usize = 0;
    while j < n
        invariant
            j <= n,
            n == pairs@.len(),
            forall|k: int| 0 <= k < j ==> (#[trigger] pairs.deep_view()[k]).0 != w@,
        decreases n - j,
    {
        if pairs[j].0 == *w {
            proof {
                assert(words_of(pairs.deep_view())[j as int] == w@);
            }
            return true;
        }
        j = j + 1;
    }
    proof {
        assert forall|k: int| 0 <= k < words_of(pairs.deep_view()).len() implies #[trigger] words_of(
            pairs.deep_view(),
        )[k] != w@ by {
            assert(words_of(pairs.deep_view())[k] == pairs.deep_view()[k].0);
        }
    }
    false
}

/// Appends `(w, to_morse(w))` unless `w` is already a key.
fn push_if_new(pairs: &mut Vec<(String, String)>, w: &str)
    requires
        forall|k: int|
            0 <= k < old(pairs).deep_view().len() ==> (#[trigger] old(pairs).deep_view()[k]).1
                == morse_seq(old(pairs).deep_view()[k].0),
    ensures
        words_of(final(pairs).deep_view()) == if words_of(old(pairs).deep_view()).contains(w@) {
            words_of(old(pairs).deep_view())
        } else {
            words_of(old(pairs).deep_view()).push(w@)
        },
        forall|k: int|
            0 <= k < final(pairs).deep_view().len() ==> (#[trigger] final(pairs).deep_view()[k]).1
                == morse_seq(final(pairs).deep_view()[k].0),
{
    let word = String::from_str(w);
    let code = to_morse(w);
    let is_old = contains_word(pairs, &word);
    if !is_old {
        let ghost prev = pairs.deep_view();
        pairs.push((word, code));
        proof {
            assert(pairs.deep_view() =~= prev.push((w@, morse_seq(w@))));
            assert(words_of(pairs.deep_view()) =~= words_of(prev).push(w@));
        }
    }
}

/// Splits `s` on newlines and pairs each distinct line with its Morse code,
/// in first-occurrence order.
pub fn get_code_word_pairs(s: &str) -> (r: Vec<(String, String)>)
    ensures
        r.deep_view() == dict_of(s@),
{
    let n = s.unicode_len();
    let mut pairs: Vec<(String, String)> = Vec::new();
    let ghost mut lines_done: Seq<Seq<char>> = Seq::empty();
    let mut start: usize = 0;
    let mut i: usize = 0;
    proof {
        assert(s@.subrange(0, 0) =~= Seq::<char>::empty());
        assert(split_lines(s@.subrange(0, 0)) =~= lines_done.push(s@.subrange(0, 0)));
    }
    while i < n
        invariant
            start <= i <= n,
            n == s@.len(),
            split_lines(s@.subrange(0, i as int)) == lines_done.push(
                s@.subrange(start as int, i as int),
            ),
            words_of(pairs.deep_view()) == dedup_first(lines_done),
            forall|k: int|
                0 <= k < pairs.deep_view().len() ==> (#[trigger] pairs.deep_view()[k]).1
                    == morse_seq(pairs.deep_view()[k].0),
        decreases n - i,
    {
        let ghost old_prefix = s@.subrange(0, i as int);
        let ghost cur = s@.subrange(start as int, i as int);
        if s.get_char(i) == '\n' {
            let w = s.substring_char(start, i);
            push_if_new(&mut pairs, w);
            proof {
                let newlines = lines_done.push(cur);
                assert(newlines.drop_last() =~= lines_done);
                assert(dedup_first(newlines) == if dedup_first(lines_done).contains(cur) {
                    dedup_first(lines_done)
                } else {
                    dedup_first(lines_done).push(cur)
                });
                lines_done = newlines;
            }
            start = i + 1;
        }
        i = i + 1;
        proof {
            let prefix = s@.subrange(0, i as int);
            assert(prefix.drop_last() =~= old_prefix);
            assert(prefix.last() == s@[i - 1]);
            if s@[i - 1] == '\n' {
                assert(s@.subrange(start as int, i as int) =~= Seq::<char>::empty());
                assert(split_lines(prefix) =~= lines_done.push(
                    s@.subrange(start as int, i as int),
                ));
            } else {
                let prev = split_lines(old_prefix);
                assert(prev.last() == cur);
                assert(cur.push(s@[i - 1]) =~= s@.subrange(start as int, i as int));
                assert(split_lines(prefix) =~= lines_done.push(
                    s@.subrange(start as int, i as int),
                ));
            }
        }
    }
    let ghost cur = s@.subrange(start as int, n as int);
    let w = s.substring_char(start, n);
    push_if_new(&mut pairs, w);
    proof {
        let newlines = lines_done.push(cur);
        assert(newlines.drop_last() =~= lines_done);
        assert(dedup_first(newlines) == if dedup_first(lines_done).contains(cur) {
            dedup_first(lines_done)
        } else {
            dedup_first(lines_done).push(cur)
        });
        assert(s@.subrange(0, n as int) =~= s@);
        assert(split_lines(s@) == newlines);
        let d = pairs.deep_view();
        assert(words_of(d) == dedup_first(split_lines(s@)));
        assert forall|k: int| 0 <= k < d.len() implies d[k] == dict_of(s@)[k] by {
            assert(words_of(d)[k] == d[k].0);
        }
        assert(d =~= dict_of(s@));
    }
    pairs
}

/// The Morse codes of all lines of `contents`, in order, one per line and
/// with repeated lines kept.
pub fn list_morse_codes(contents: String) -> (r: Vec<String>)
    ensures
        r.deep_view() == split_lines(contents@).map_values(|w: Seq<char>| morse_seq(w)),
{
    let s = contents.as_str();
    let n = s.unicode_len();
    let mut codes: Vec<String> = Vec::new();
    let ghost mut lines_done: Seq<Seq<char>> = Seq::empty();
    let ghost code_of = |w: Seq<char>| morse_seq(w);
    let mut start: usize = 0;
    let mut i: usize = 0;
    proof {
        assert(s@.subrange(0, 0) =~= Seq::<char>::empty());
        assert(split_lines(s@.subrange(0, 0)) =~= lines_done.push(s@.subrange(0, 0)));
        assert(codes.deep_view() =~= lines_done.map_values(code_of));
    }
    while i < n
        invariant
            start <= i <= n,
            n == s@.len(),
            split_lines(s@.subrange(0, i as int)) == lines_done.push(
                s@.subrange(start as int, i as int),
            ),
            codes.deep_view() == lines_done.map_values(code_of),
            code_of == (|w: Seq<char>| morse_seq(w)),
        decreases n - i,
    {
        let ghost old_prefix = s@.subrange(0, i as int);
        let ghost cur = s@.subrange(start as int, i as int);
        if s.get_char(i) == '\n' {
            let ghost prev_codes = codes.deep_view();
            codes.push(to_morse(s.substring_char(start, i)));
            proof {
                assert(codes.deep_view() =~= prev_codes.push(morse_seq(cur)));
                assert(lines_done.push(cur).map_values(code_of) =~= lines_done.map_values(
                    code_of,
                ).push(morse_seq(cur)));
                lines_done = lines_done.push(cur);
            }
            start = i + 1;
        }
        i = i + 1;
        proof {
            let prefix = s@.subrange(0, i as int);
            assert(prefix.drop_last() =~= old_prefix);
            assert(prefix.last() == s@[i - 1]);
            if s@[i - 1] == '\n' {
                assert(s@.subrange(start as int, i as int) =~= Seq::<char>::empty());
                assert(split_lines(prefix) =~= lines_done.push(
                    s@.subrange(start as int, i as int),
                ));
            } else {
                let prev = split_lines(old_prefix);
                assert(prev.last() == cur);
                assert(cur.push(s@[i - 1]) =~= s@.subrange(start as int, i as int));
                assert(split_lines(prefix) =~= lines_done.push(
                    s@.subrange(start as int, i as int),
                ));
            }
        }
    }
    let ghost cur = s@.subrange(start as int, n as int);
    let ghost prev_codes = codes.deep_view();
    codes.push(to_morse(s.substring_char(start, n)));
    proof {
        assert(codes.deep_view() =~= prev_codes.push(morse_seq(cur)));
        assert(s@.subrange(0, n as int) =~= s@);
        assert(split_lines(s@) == lines_done.push(cur));
        assert(lines_done.push(cur).map_values(code_of) =~= lines_done.map_values(code_of).push(
            morse_seq(cur),
        ));
        assert(codes.deep_view() == split_lines(s@).map_values(code_of));
    }
    codes
}

/// The dictionary: each distinct word of the source text, paired with its
/// Morse code, in first-occurrence order. Built once; the analyses only read
/// it.
pub struct MorseDictionary {
    /// The `(word, code)` pairs.
    pub pairs: Vec<(String, String)>,
}

impl View for MorseDictionary {
    type V = Seq<(Seq<char>, Seq<char>)>;

    open spec fn view(&self) -> Seq<(Seq<char>, Seq<char>)> {
        self.pairs.deep_view()
    }
}

impl MorseDictionary {
    /// Well-formedness: every code is the Morse encoding of its word, and no
    /// word occurs twice.
    pub open spec fn wf(&self) -> bool {
        &&& forall|k: int|
            0 <= k < self@.len() ==> (#[trigger] self@[k]).1 == morse_seq(self@[k].0)
        &&& forall|j: int, k: int|
            #![trigger self@[j], self@[k]]
            0 <= j < k < self@.len() ==> self@[j].0 != self@[k].0
    }

    /// Builds the dictionary from newline-delimited text.
    pub fn from(text: String) -> (d: MorseDictionary)
        ensures
            d@ == dict_of(text@),
            d.wf(),
    {
        let pairs = get_code_word_pairs(text.as_str());
        let d = MorseDictionary { pairs };
        proof {
            let ws = dedup_first(split_lines(text@));
            lemma_dedup_first_distinct(split_lines(text@));
            assert forall|j: int, k: int|
                #![trigger d@[j], d@[k]]
                0 <= j < k < d@.len() implies d@[j].0 != d@[k].0 by {
                assert(d@[j].0 == ws[j]);
                assert(d@[k].0 == ws[k]);
            }
        }
        d
    }
}

} // verus!
