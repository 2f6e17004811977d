//! A word-frequency counter over the ordered symbol table.
//!
//! The counter takes a text, splits it into whitespace-separated words,
//! drops the words that are too short, and accumulates per-word counts in a
//! [`BalancedTree`]. It reports how many words it counted, how many
//! distinct ones, and the most frequent word together with its frequency;
//! ties go to the lexicographically smallest word.

use vstd::prelude::*;

use crate::balancedtree::{lemma_link_sorted, BalancedTree};
use crate::entries::{
    entries_sorted, keys_of, lemma_get_at_key, lemma_put_existing_entries, lemma_put_fresh_entries,
    lemma_put_len, spec_put,
};
use crate::keys::{lex_lt, Dup, OrdKey};

verus! {

/// An ASCII whitespace character: space, tab, line feed, form feed or
/// carriage return.
pub open spec fn is_ws(c: char) -> bool {
    c == ' ' || c == '\t' || c == '\n' || c == '\x0C' || c == '\r'
}

/// The length of the leading run of non-whitespace characters.
pub open spec fn run_len(s: Seq<char>) -> nat
    decreases s.len(),
{
    if s.len() == 0 || is_ws(s[0]) {
        0
    } else {
        1 + run_len(s.drop_first())
    }
}

/// The words of a character sequence: its maximal runs of non-whitespace
/// characters, in order.
pub open spec fn split_ws(s: Seq<char>) -> Seq<Seq<char>>
    decreases s.len(),
    via split_ws_measure
{
    if s.len() == 0 {
        Seq::empty()
    } else if is_ws(s[0]) {
        split_ws(s.drop_first())
    } else {
        seq![s.take(run_len(s) as int)] + split_ws(s.skip(run_len(s) as int))
    }
}

#[via_fn]
proof fn split_ws_measure(s: Seq<char>) {
    if s.len() > 0 && !is_ws(s[0]) {
        assert(run_len(s) >= 1);
        lemma_run_len_le(s);
    }
}

/// The character sequences of a vector of strings.
pub open spec fn views_of(ws: Seq<String>) -> Seq<Seq<char>> {
    ws.map_values(|w: String| w@)
}

/// Whether a word is long enough to be counted; lengths count characters.
pub open spec fn qualifies(w: Seq<char>, min: nat) -> bool {
    w.len() >= min
}

/// How often `w` occurs among the words.
pub open spec fn occ(ws: Seq<Seq<char>>, w: Seq<char>) -> nat
    decreases ws.len(),
{
    if ws.len() == 0 {
        0
    } else {
        occ(ws.drop_last(), w) + (if ws.last() == w {
            1nat
        } else {
            0nat
        })
    }
}

/// How many words are long enough, occurrences included.
pub open spec fn qualifying_count(ws: Seq<Seq<char>>, min: nat) -> nat
    decreases ws.len(),
{
    if ws.len() == 0 {
        0
    } else {
        qualifying_count(ws.drop_last(), min) + (if qualifies(ws.last(), min) {
            1nat
        } else {
            0nat
        })
    }
}

/// How many distinct words are long enough: each word is counted at its
/// first occurrence.
pub open spec fn distinct_count(ws: Seq<Seq<char>>, min: nat) -> nat
    decreases ws.len(),
{
    if ws.len() == 0 {
        0
    } else {
        distinct_count(ws.drop_last(), min) + (if qualifies(ws.last(), min) && occ(
            ws.drop_last(),
            ws.last(),
        ) == 0 {
            1nat
        } else {
            0nat
        })
    }
}

/// The leading run is never longer than the sequence.
pub proof fn lemma_run_len_le(s: Seq<char>)
    ensures
        run_len(s) <= s.len(),
    decreases s.len(),
{
    if s.len() > 0 && !is_ws(s[0]) {
        lemma_run_len_le(s.drop_first());
    }
}

/// The length of the leading run, given where the run ends.
pub proof fn lemma_run_len_at(s: Seq<char>, t: int)
    requires
        0 <= t <= s.len(),
        forall|k: int| 0 <= k < t ==> !is_ws(#[trigger] s[k]),
        t == s.len() || is_ws(s[t]),
    ensures
        run_len(s) == t,
    decreases t,
{
    if t > 0 {
        assert(!is_ws(s[0]));
        assert forall|k: int| 0 <= k < t - 1 implies !is_ws(#[trigger] s.drop_first()[k]) by {
            assert(s.drop_first()[k] == s[k + 1]);
        }
        if t < s.len() {
            assert(s.drop_first()[t - 1] == s[t]);
        }
        lemma_run_len_at(s.drop_first(), t - 1);
    }
}

/// There are never more words than characters, and no word is empty.
pub proof fn lemma_split_ws_words(s: Seq<char>)
    ensures
        split_ws(s).len() <= s.len(),
        forall|i: int| 0 <= i < split_ws(s).len() ==> (#[trigger] split_ws(s)[i]).len() >= 1,
    decreases s.len(),
{
    if s.len() == 0 {
    } else if is_ws(s[0]) {
        lemma_split_ws_words(s.drop_first());
    } else {
        lemma_run_len_le(s);
        let r = run_len(s) as int;
        lemma_split_ws_words(s.skip(r));
        assert forall|i: int| 0 <= i < split_ws(s).len() implies (#[trigger] split_ws(
            s,
        )[i]).len() >= 1 by {
            if i == 0 {
                assert(split_ws(s)[0] == s.take(r));
            } else {
                assert(split_ws(s)[i] == split_ws(s.skip(r))[i - 1]);
            }
        }
    }
}

/// A count is never larger than the number of words.
pub proof fn lemma_occ_le_len(ws: Seq<Seq<char>>, w: Seq<char>)
    ensures
        occ(ws, w) <= ws.len(),
    decreases ws.len(),
{
    if ws.len() > 0 {
        lemma_occ_le_len(ws.drop_last(), w);
    }
}

/// A word with a positive count occurs.
pub proof fn lemma_occ_member(ws: Seq<Seq<char>>, w: Seq<char>)
    requires
        occ(ws, w) >= 1,
    ensures
        exists|i: int| 0 <= i < ws.len() && #[trigger] ws[i] == w,
    decreases ws.len(),
{
    if ws.last() == w {
        assert(ws[ws.len() - 1] == w);
    } else {
        lemma_occ_member(ws.drop_last(), w);
        let i = choose|i: int| 0 <= i < ws.drop_last().len() && #[trigger] ws.drop_last()[i] == w;
        assert(ws[i] == w);
    }
}

/// What a frequency count found: how many words were counted, how many
/// distinct words there were, the most frequent word, and its frequency.
pub struct FrequencyCounter {
    pub words: usize,
    pub distinct: usize,
    pub max: String,
    pub frequency: u32,
}

/// An ASCII whitespace test on a single character.
fn is_ws_char(c: char) -> (b: bool)
    ensures
        b == is_ws(c),
{
    c == ' ' || c == '\t' || c == '\n' || c == '\x0C' || c == '\r'
}

impl FrequencyCounter {
    /// Split a line into its whitespace-separated words.
    pub fn words(line: &str) -> (ws: Vec<String>)
        ensures
            views_of(ws@) == split_ws(line@),
    {
        let n = line.unicode_len();
        let mut ws: Vec<String> = Vec::new();
        let mut i: usize = 0;
        proof {
            assert(line@.skip(0) =~= line@);
        }
        while i < n
            invariant
                i <= n,
                n == line@.len(),
                views_of(ws@) + split_ws(line@.skip(i as int)) == split_ws(line@),
            decreases n - i,
        {
            let c = line.get_char(i);
            if is_ws_char(c) {
                proof {
                    assert(line@.skip(i as int)[0] == line@[i as int]);
                    assert(line@.skip(i as int).drop_first() =~= line@.skip(i + 1));
                }
                i = i + 1;
            } else {
                let mut j = i + 1;
                let mut done = j == n;
                proof {
                    assert(line@.skip(i as int)[0] == line@[i as int]);
                }
                while !done
                    invariant
                        i < j <= n,
                        n == line@.len(),
                        forall|k: int| i <= k < j ==> !is_ws(#[trigger] line@[k]),
                        done ==> j == n || is_ws(line@[j as int]),
                    decreases n - j + (if done {
                        0int
                    } else {
                        1int
                    }),
                {
                    if j == n {
                        done = true;
                    } else {
                        let d = line.get_char(j);
                        if is_ws_char(d) {
                            done = true;
                        } else {
                            j = j + 1;
                        }
                    }
                }
                let ghost tail = line@.skip(i as int);
                proof {
                    assert forall|k: int| 0 <= k < j - i implies !is_ws(#[trigger] tail[k]) by {
                        assert(tail[k] == line@[i + k]);
                    }
                    if j < n {
                        assert(tail[j - i] == line@[j as int]);
                    }
                    lemma_run_len_at(tail, j - i);
                    assert(tail.take(j - i) =~= line@.subrange(i as int, j as int));
                    assert(tail.skip(j - i) =~= line@.skip(j as int));
                }
                let piece = line.substring_char(i, j);
                let w = piece.to_owned();
                let ghost before = ws@;
                ws.push(w);
                proof {
                    assert(views_of(ws@) =~= views_of(before) + seq![w@]);
                    assert(split_ws(tail) == seq![tail.take(j - i)] + split_ws(tail.skip(j - i)));
                    assert((views_of(before) + seq![w@]) + split_ws(line@.skip(j as int))
                        =~= views_of(before) + split_ws(tail));
                }
                i = j;
            }
        }
        proof {
            assert(line@.skip(n as int).len() == 0);
            assert(views_of(ws@) + split_ws(line@.skip(n as int)) =~= views_of(ws@));
        }
        ws
    }

    /// Count the words of a text that have at least `min_length` characters.
    /// The result reports the number of counted words, the number of
    /// distinct counted words, and the counted word with the most
    /// occurrences together with that number; among equally frequent words
    /// the lexicographically smallest wins, and with nothing counted the
    /// most frequent "word" is empty with frequency zero.
    #[verifier::rlimit(100)]
    pub fn new(text: &str, min_length: usize) -> (fc: FrequencyCounter)
        requires
            text@.len() < u32::MAX,
        ensures
            fc.words == qualifying_count(split_ws(text@), min_length as nat),
            fc.distinct == distinct_count(split_ws(text@), min_length as nat),
            fc.frequency as nat == occ(split_ws(text@), fc.max@),
            forall|w: Seq<char>|
                qualifies(w, min_length as nat) ==> #[trigger] occ(split_ws(text@), w)
                    <= fc.frequency,
            forall|w: Seq<char>|
                qualifies(w, min_length as nat) && #[trigger] occ(split_ws(text@), w)
                    == fc.frequency && fc.frequency > 0 ==> fc.max@ == w || lex_lt(fc.max@, w),
            fc.frequency == 0 ==> fc.max@ == Seq::<char>::empty(),
    {
        let ghost ws = split_ws(text@);
        let ghost min = min_length as nat;
        let wsv = Self::words(text);
        proof {
            lemma_split_ws_words(text@);
        }
        let mut tree = BalancedTree::<String, u32>::new();
        let mut words_n: usize = 0;
        let mut distinct_n: usize = 0;
        let n = wsv.len();
        let mut k: usize = 0;
        proof {
            assert(ws.take(0).len() == 0);
        }
        while k < n
            invariant
                k <= n,
                n == wsv.len(),
                min == min_length as nat,
                views_of(wsv@) == ws,
                ws.len() <= text@.len(),
                text@.len() < u32::MAX,
                tree.wf(),
                words_n <= k,
                words_n == qualifying_count(ws.take(k as int), min),
                distinct_n == distinct_count(ws.take(k as int), min),
                tree@.len() == distinct_n,
                distinct_n <= k,
                forall|j: int|
                    0 <= j < tree@.len() ==> qualifies((#[trigger] tree@[j]).0@, min) && tree@[
                        j].1 as nat == occ(ws.take(k as int), tree@[j].0@) && occ(
                        ws.take(k as int),
                        tree@[j].0@,
                    ) >= 1,
                forall|w: Seq<char>|
                    qualifies(w, min) && #[trigger] occ(ws.take(k as int), w) >= 1 ==> exists|
                        j: int,
                    | 0 <= j < tree@.len() && (#[trigger] tree@[j]).0@ == w,
            decreases n - k,
        {
            let ghost wv = ws[k as int];
            let ghost prefix = ws.take(k as int);
            let ghost prefix1 = ws.take(k + 1);
            proof {
                assert(views_of(wsv@)[k as int] == wsv@[k as int]@);
                assert(wsv@[k as int]@ == wv);
                assert(prefix1.drop_last() =~= prefix);
                assert(prefix1.last() == wv);
                assert(qualifying_count(prefix1, min) == qualifying_count(prefix, min) + (
                if qualifies(wv, min) {
                    1nat
                } else {
                    0nat
                }));
                assert forall|w: Seq<char>| #[trigger]
                    occ(prefix1, w) == occ(prefix, w) + (if wv == w {
                        1nat
                    } else {
                        0nat
                    }) by {}
            }
            let word = wsv[k].dup();
            proof {
                assert(word == wsv@[k as int]);
                assert(word@ == wv);
            }
            let wlen = word.as_str().unicode_len();
            if wlen < min_length {
                proof {
                    assert(!qualifies(wv, min));
                    assert forall|j: int|
                        0 <= j < tree@.len() implies qualifies((#[trigger] tree@[j]).0@, min)
                        && tree@[j].1 as nat == occ(prefix1, tree@[j].0@) && occ(
                        prefix1,
                        tree@[j].0@,
                    ) >= 1 by {
                        assert(tree@[j].0@ != wv);
                        assert(occ(prefix1, tree@[j].0@) == occ(prefix, tree@[j].0@));
                    }
                    assert forall|w: Seq<char>|
                        qualifies(w, min) && #[trigger] occ(prefix1, w) >= 1 implies exists|j: int|
                        0 <= j < tree@.len() && (#[trigger] tree@[j]).0@ == w by {
                        assert(w != wv);
                        assert(occ(prefix, w) >= 1);
                    }
                }
            } else {
                words_n = words_n + 1;
                let found = tree.contains(word.dup());
                proof {
                    lemma_link_sorted(tree.root);
                    assert(qualifies(wv, min));
                }
                if !found {
                    proof {
                        assert forall|i: int| 0 <= i < tree@.len() implies !(
                        #[trigger] tree@[i]).0.eqv(word) by {
                            if tree@[i].0.eqv(word) {
                                assert(tree@[i].0@ == wv);
                            }
                        }
                        assert(occ(prefix, wv) == 0) by {
                            if occ(prefix, wv) >= 1 {
                                let j = choose|j: int|
                                    0 <= j < tree@.len() && (#[trigger] tree@[j]).0@ == wv;
                                assert(tree@[j].0.eqv(word));
                            }
                        }
                        lemma_put_len(tree@, word, 1u32);
                        lemma_put_fresh_entries(tree@, word, 1u32);
                    }
                    let ghost before = tree@;
                    tree.put(word, 1);
                    distinct_n = distinct_n + 1;
                    proof {
                        assert(tree@ == spec_put(before, word, 1u32));
                        assert(distinct_count(prefix1, min) == distinct_count(prefix, min) + 1);
                        assert forall|j: int|
                            0 <= j < tree@.len() implies qualifies((#[trigger] tree@[j]).0@, min)
                            && tree@[j].1 as nat == occ(prefix1, tree@[j].0@) && occ(
                            prefix1,
                            tree@[j].0@,
                        ) >= 1 by {
                            if tree@[j] == (word, 1u32) {
                                assert(tree@[j].0@ == wv);
                                assert(occ(prefix1, wv) == 1);
                            } else {
                                let i = choose|i: int|
                                    0 <= i < before.len() && #[trigger] before[i] == tree@[j];
                                assert(before[i].0@ != wv);
                                assert(occ(prefix1, before[i].0@) == occ(prefix, before[i].0@));
                            }
                        }
                        assert forall|w: Seq<char>|
                            qualifies(w, min) && #[trigger] occ(prefix1, w) >= 1 implies exists|
                            j: int,
                        | 0 <= j < tree@.len() && (#[trigger] tree@[j]).0@ == w by {
                            if w == wv {
                                let j = choose|j: int|
                                    0 <= j < tree@.len() && #[trigger] tree@[j] == (word, 1u32);
                                assert(tree@[j].0@ == w);
                            } else {
                                assert(occ(prefix, w) >= 1);
                                let i0 = choose|i0: int|
                                    0 <= i0 < before.len() && (#[trigger] before[i0]).0@ == w;
                                let j = choose|j: int|
                                    0 <= j < tree@.len() && #[trigger] tree@[j] == #[trigger] before[i0];
                                assert(tree@[j].0@ == w);
                            }
                        }
                    }
                } else {
                    let ghost before = tree@;
                    let ghost j0 = choose|j0: int|
                        0 <= j0 < before.len() && (#[trigger] before[j0]).0.eqv(word);
                    proof {
                        assert(before[j0].0@ == wv);
                        lemma_get_at_key(before, word, j0);
                        lemma_occ_le_len(prefix, wv);
                    }
                    let current = tree.get(word.dup()).unwrap();
                    proof {
                        assert(current == before[j0].1);
                        assert(current as nat == occ(prefix, wv));
                        assert(current < u32::MAX);
                        lemma_put_len(before, word, (current + 1) as u32);
                        lemma_put_existing_entries(before, word, (current + 1) as u32);
                    }
                    tree.put(word, current + 1);
                    proof {
                        assert(distinct_count(prefix1, min) == distinct_count(prefix, min));
                        assert forall|j: int|
                            0 <= j < tree@.len() implies qualifies((#[trigger] tree@[j]).0@, min)
                            && tree@[j].1 as nat == occ(prefix1, tree@[j].0@) && occ(
                            prefix1,
                            tree@[j].0@,
                        ) >= 1 by {
                            if before[j].0.eqv(word) {
                                assert(tree@[j] == (before[j].0, (current + 1) as u32));
                                assert(tree@[j].0@ == wv);
                                assert(occ(prefix1, wv) == occ(prefix, wv) + 1);
                            } else {
                                assert(tree@[j] == before[j]);
                                assert(tree@[j].0@ != wv);
                                assert(occ(prefix1, tree@[j].0@) == occ(prefix, tree@[j].0@));
                            }
                        }
                        assert forall|w: Seq<char>|
                            qualifies(w, min) && #[trigger] occ(prefix1, w) >= 1 implies exists|
                            j: int,
                        | 0 <= j < tree@.len() && (#[trigger] tree@[j]).0@ == w by {
                            if w == wv {
                                assert(tree@[j0].0@ == w);
                            } else {
                                assert(occ(prefix, w) >= 1);
                                let i0 = choose|i0: int|
                                    0 <= i0 < before.len() && (#[trigger] before[i0]).0@ == w;
                                if before[i0].0.eqv(word) {
                                    assert(before[i0].0@ == wv);
                                } else {
                                    assert(tree@[i0] == before[i0]);
                                    assert(tree@[i0].0@ == w);
                                }
                            }
                        }
                    }
                }
            }
            k = k + 1;
        }
        proof {
            assert(ws.take(n as int) =~= ws);
        }
        let empty_word = String::new();
        let ghost before = tree@;
        proof {
            assert forall|i: int| 0 <= i < before.len() implies !(#[trigger] before[i]).0.eqv(
                empty_word,
            ) by {
                lemma_occ_member(ws, before[i].0@);
                let x = choose|x: int| 0 <= x < ws.len() && #[trigger] ws[x] == before[i].0@;
                assert(split_ws(text@)[x].len() >= 1);
            }
            if before.len() > 0 {
                assert(before[0].0@.len() >= 1) by {
                    lemma_occ_member(ws, before[0].0@);
                    let x = choose|x: int| 0 <= x < ws.len() && #[trigger] ws[x] == before[0].0@;
                    assert(split_ws(text@)[x].len() >= 1);
                }
                assert(empty_word.lt(before[0].0));
                assert(spec_put(before, empty_word, 0u32) == seq![(empty_word, 0u32)] + before);
            } else {
                assert(spec_put(before, empty_word, 0u32) =~= seq![(empty_word, 0u32)] + before);
            }
            lemma_occ_le_len(ws, Seq::<char>::empty());
            assert(occ(ws, empty_word@) == 0) by {
                if occ(ws, empty_word@) >= 1 {
                    lemma_occ_member(ws, empty_word@);
                    let x = choose|x: int| 0 <= x < ws.len() && #[trigger] ws[x] == empty_word@;
                    assert(split_ws(text@)[x].len() >= 1);
                }
            }
        }
        tree.put(empty_word.dup(), 0);
        let ghost entries2 = tree@;
        proof {
            assert(entries2 == seq![(empty_word, 0u32)] + before);
            assert(entries2[0] == (empty_word, 0u32));
            lemma_link_sorted(tree.root);
            assert forall|j: int|
                0 <= j < entries2.len() implies (#[trigger] entries2[j]).1 as nat == occ(
                ws,
                entries2[j].0@,
            ) by {
                if j > 0 {
                    assert(entries2[j] == before[j - 1]);
                }
            }
        }
        let ks = tree.keys();
        let mut max_word = String::new();
        let mut best: u32 = 0;
        let ghost mut best_idx: int = 0;
        let m = ks.len();
        let mut j: usize = 0;
        proof {
            assert(keys_of(entries2)[0] == entries2[0].0);
        }
        while j < m
            invariant
                j <= m,
                m == ks.len(),
                ks@ == keys_of(entries2),
                tree@ == entries2,
                tree.wf(),
                entries2.len() >= 1,
                entries_sorted(entries2),
                0 <= best_idx < entries2.len(),
                best_idx < j || best_idx == 0,
                best == entries2[best_idx].1,
                max_word@ == entries2[best_idx].0@,
                best == 0 ==> best_idx == 0 && max_word@ == Seq::<char>::empty(),
                entries2[0].0@ == Seq::<char>::empty(),
                forall|i: int| 0 <= i < j ==> (#[trigger] entries2[i]).1 <= best,
                forall|i: int| 0 <= i < j ==> ((#[trigger] entries2[i]).1 == best ==> best_idx <= i),
            decreases m - j,
        {
            proof {
                assert(ks@[j as int] == keys_of(entries2)[j as int]);
                assert(keys_of(entries2)[j as int] == entries2[j as int].0);
                assert(entries2[j as int].0.eqv(ks@[j as int]));
                lemma_get_at_key(entries2, ks@[j as int], j as int);
            }
            let c = tree.get(ks[j].dup()).unwrap();
            if c > best {
                max_word = ks[j].dup();
                best = c;
                proof {
                    best_idx = j as int;
                }
            }
            j = j + 1;
        }
        proof {
            assert(best as nat == occ(ws, max_word@));
            assert forall|w: Seq<char>| qualifies(w, min) implies #[trigger] occ(ws, w)
                <= best by {
                if occ(ws, w) >= 1 {
                    let i0 = choose|i0: int|
                        0 <= i0 < before.len() && (#[trigger] before[i0]).0@ == w;
                    assert(entries2[i0 + 1] == before[i0]);
                    assert(entries2[i0 + 1].1 <= best);
                    assert(entries2[i0 + 1].1 as nat == occ(ws, w));
                }
            }
            assert forall|w: Seq<char>|
                qualifies(w, min) && #[trigger] occ(ws, w) == best && best > 0 implies max_word@
                == w || lex_lt(max_word@, w) by {
                let i0 = choose|i0: int| 0 <= i0 < before.len() && (#[trigger] before[i0]).0@ == w;
                assert(entries2[i0 + 1] == before[i0]);
                assert(entries2[i0 + 1].1 == best);
                assert(best_idx <= i0 + 1);
                if best_idx == i0 + 1 {
                    assert(max_word@ == w);
                } else {
                    assert(entries2[best_idx].0.lt(entries2[i0 + 1].0));
                }
            }
        }
        FrequencyCounter { words: words_n, distinct: distinct_n, max: max_word, frequency: best }
    }
}

} // verus!
