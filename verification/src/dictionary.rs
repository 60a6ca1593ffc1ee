//! The frequency-and-uniqueness ordering of a word list: each word is
//! scored by how common its letters are at their positions across the
//! list, words with five distinct letters are partitioned to the front,
//! and higher scores come first within each partition.

use vstd::prelude::*;

use crate::word::letter_ord;
use crate::word::word_is_unique;
use crate::word::Word;

verus! {

broadcast use vstd::seq_lib::group_to_multiset_ensures;

/// How many words of `words` have the letter with ordinal `ord` at
/// position `p`.
pub open spec fn freq_at(words: Seq<Word>, p: int, ord: int) -> int
    decreases words.len(),
{
    if words.len() == 0 {
        0
    } else {
        freq_at(words.drop_last(), p, ord) + if letter_ord(words.last()@[p]) == ord {
            1int
        } else {
            0int
        }
    }
}

/// A per-position count never exceeds the number of words.
pub proof fn lemma_freq_le_len(words: Seq<Word>, p: int, ord: int)
    ensures
        0 <= freq_at(words, p, ord) <= words.len(),
    decreases words.len(),
{
    if words.len() > 0 {
        lemma_freq_le_len(words.drop_last(), p, ord);
    }
}

/// Counting one more word adjusts exactly the cells of its five letters.
proof fn lemma_freq_take_step(words: Seq<Word>, i: int, p: int, ord: int)
    requires
        0 <= i < words.len(),
    ensures
        freq_at(words.take(i + 1), p, ord) == freq_at(words.take(i), p, ord) + if letter_ord(
            words[i]@[p],
        ) == ord {
            1int
        } else {
            0int
        },
{
    assert(words.take(i + 1).drop_last() =~= words.take(i));
    assert(words.take(i + 1).last() == words[i]);
}

/// The frequency score of a word against a list: the sum of its letters'
/// occurrence counts at their respective positions.
pub open spec fn word_score(words: Seq<Word>, w: Word) -> int {
    freq_at(words, 0, letter_ord(w@[0])) + freq_at(words, 1, letter_ord(w@[1])) + freq_at(
        words,
        2,
        letter_ord(w@[2]),
    ) + freq_at(words, 3, letter_ord(w@[3])) + freq_at(words, 4, letter_ord(w@[4]))
}

/// The ascending sort key of the ordering: words with five distinct
/// letters come first, and within each partition a higher score comes
/// first.
pub open spec fn sort_key(words: Seq<Word>, w: Word) -> int {
    (if word_is_unique(w) {
        0int
    } else {
        1int
    }) * 0x2_0000_0000 + 0x1_0000_0000 - word_score(words, w)
}

/// Whether `s` is ordered by the sort key computed against `words`.
pub open spec fn sorted_by_frequency(words: Seq<Word>, s: Seq<Word>) -> bool {
    forall|i: int, j: int|
        0 <= i < j < s.len() ==> sort_key(words, #[trigger] s[i]) <= sort_key(words, #[trigger] s[j])
}

/// The per-position, per-letter occurrence table of a word list, laid
/// out as 5 rows of 26 counts.
fn build_freq_table(words: &Vec<Word>) -> (table: Vec<u32>)
    requires
        words@.len() <= 0x1000_0000,
    ensures
        table@.len() == 130,
        forall|p: int, ord: int|
            0 <= p < 5 && 0 <= ord < 26 ==> table@[p * 26 + ord] == #[trigger] freq_at(
                words@,
                p,
                ord,
            ),
{
    let mut table: Vec<u32> = Vec::new();
    let mut c: usize = 0;
    while c < 130
        invariant
            c <= 130,
            table@.len() == c,
            forall|k: int| 0 <= k < c ==> table@[k] == 0,
        decreases 130 - c,
    {
        table.push(0);
        c += 1;
    }
    proof {
        assert forall|p: int, ord: int| 0 <= p < 5 && 0 <= ord < 26 implies table@[p * 26 + ord]
            == #[trigger] freq_at(words@.take(0), p, ord) by {
            assert(words@.take(0).len() == 0);
        }
    }
    let n = words.len();
    let mut i: usize = 0;
    while i < n
        invariant
            n == words@.len(),
            n <= 0x1000_0000,
            i <= n,
            table@.len() == 130,
            forall|p: int, ord: int|
                0 <= p < 5 && 0 <= ord < 26 ==> table@[p * 26 + ord] == #[trigger] freq_at(
                    words@.take(i as int),
                    p,
                    ord,
                ),
        decreases n - i,
    {
        let w = words[i];
        let mut p: usize = 0;
        while p < 5
            invariant
                n == words@.len(),
                n <= 0x1000_0000,
                i < n,
                p <= 5,
                w == words@[i as int],
                table@.len() == 130,
                forall|q: int, ord: int|
                    0 <= q < p && 0 <= ord < 26 ==> table@[q * 26 + ord] == #[trigger] freq_at(
                        words@.take(i as int + 1),
                        q,
                        ord,
                    ),
                forall|q: int, ord: int|
                    p <= q < 5 && 0 <= ord < 26 ==> table@[q * 26 + ord] == #[trigger] freq_at(
                        words@.take(i as int),
                        q,
                        ord,
                    ),
            decreases 5 - p,
        {
            let ord = w.0[p].index();
            let idx = p * 26 + ord;
            let ghost old_table = table@;
            proof {
                lemma_freq_le_len(words@.take(i as int), p as int, ord as int);
                assert(words@.take(i as int).len() <= n);
            }
            let cur = table[idx];
            table.set(idx, cur + 1);
            proof {
                assert forall|q: int, o: int| 0 <= q < p + 1 && 0 <= o < 26 implies table@[q * 26
                    + o] == #[trigger] freq_at(words@.take(i as int + 1), q, o) by {
                    lemma_freq_take_step(words@, i as int, q, o);
                    if q == p as int && o == ord as int {
                        assert(letter_ord(words@[i as int]@[q]) == o);
                    } else {
                        assert(q * 26 + o != p as int * 26 + ord as int) by {
                            if q != p as int {
                                assert(q * 26 + o < q * 26 + 26);
                                assert(q * 26 + 26 == (q + 1) * 26) by (nonlinear_arith);
                                assert((q + 1) * 26 <= p as int * 26 || (p as int + 1) * 26 <= q
                                    * 26) by (nonlinear_arith)
                                    requires
                                        q != p as int,
                                        0 <= q < 5,
                                        0 <= p < 5,
                                ;
                                assert(p as int * 26 + 26 == (p as int + 1) * 26)
                                    by (nonlinear_arith);
                            }
                        }
                        assert(table@[q * 26 + o] == old_table[q * 26 + o]);
                        if q == p as int {
                            assert(letter_ord(words@[i as int]@[q]) == ord as int);
                            assert(o != ord as int);
                        }
                    }
                }
                assert forall|q: int, o: int| p + 1 <= q < 5 && 0 <= o < 26 implies table@[q * 26
                    + o] == #[trigger] freq_at(words@.take(i as int), q, o) by {
                    assert(q * 26 + o != p as int * 26 + ord as int) by {
                        assert(p as int * 26 + ord < p as int * 26 + 26);
                        assert(p as int * 26 + 26 == (p as int + 1) * 26) by (nonlinear_arith);
                        assert((p as int + 1) * 26 <= q * 26) by (nonlinear_arith)
                            requires
                                p as int + 1 <= q,
                        ;
                    }
                    assert(table@[q * 26 + o] == old_table[q * 26 + o]);
                }
            }
            p += 1;
        }
        i += 1;
    }
    proof {
        assert(words@.take(n as int) =~= words@);
    }
    table
}

/// The ascending u64 form of `sort_key` for one word, read off the
/// occurrence table.
fn key_of(table: &Vec<u32>, w: Word, Ghost(words): Ghost<Seq<Word>>) -> (k: u64)
    requires
        words.len() <= 0x1000_0000,
        table@.len() == 130,
        forall|p: int, ord: int|
            0 <= p < 5 && 0 <= ord < 26 ==> table@[p * 26 + ord] == #[trigger] freq_at(
                words,
                p,
                ord,
            ),
    ensures
        k == sort_key(words, w),
{
    proof {
        crate::word::lemma_letter_ord_bijective();
        lemma_freq_le_len(words, 0, letter_ord(w@[0]));
        lemma_freq_le_len(words, 1, letter_ord(w@[1]));
        lemma_freq_le_len(words, 2, letter_ord(w@[2]));
        lemma_freq_le_len(words, 3, letter_ord(w@[3]));
        lemma_freq_le_len(words, 4, letter_ord(w@[4]));
    }
    let score: u64 = (table[w.0[0].index()] as u64) + (table[26 + w.0[1].index()] as u64) + (
    table[52 + w.0[2].index()] as u64) + (table[78 + w.0[3].index()] as u64) + (table[104
        + w.0[4].index()] as u64);
    let flag: u64 = if w.is_unique() {
        0
    } else {
        1
    };
    flag * 0x2_0000_0000 + 0x1_0000_0000 - score
}

/// The stable insertion point of `w` into the already-ranked `s`:
/// after every word whose key (against the reference list `words`) is
/// not larger, so equal-key words keep their former order.
pub open spec fn rank_pos(s: Seq<Word>, words: Seq<Word>, w: Word) -> int
    decreases s.len(),
{
    if s.len() == 0 {
        0
    } else if sort_key(words, s[0]) > sort_key(words, w) {
        0
    } else {
        1 + rank_pos(s.drop_first(), words, w)
    }
}

/// The ranking of the first `k` words, built by stable insertion.
pub open spec fn ranked_upto(words: Seq<Word>, k: int) -> Seq<Word>
    decreases k,
{
    if k <= 0 {
        Seq::empty()
    } else {
        let s = ranked_upto(words, k - 1);
        s.insert(rank_pos(s, words, words[k - 1]), words[k - 1])
    }
}

/// The frequency-and-uniqueness ranking of a word list: each word is
/// inserted in turn after every earlier-ranked word whose key is not
/// larger, so the result is the unique stable sort by `sort_key` —
/// equal-key words keep their original relative order.
pub open spec fn frequency_ranked(words: Seq<Word>) -> Seq<Word> {
    ranked_upto(words, words.len() as int)
}

/// The stable insertion point indexes the ranked list.
proof fn lemma_rank_pos_bounds(s: Seq<Word>, words: Seq<Word>, w: Word)
    ensures
        0 <= rank_pos(s, words, w) <= s.len(),
    decreases s.len(),
{
    if s.len() > 0 && sort_key(words, s[0]) <= sort_key(words, w) {
        lemma_rank_pos_bounds(s.drop_first(), words, w);
    }
}

/// The ranking of `k` words holds exactly those `k` words.
proof fn lemma_ranked_upto_permutes(words: Seq<Word>, k: int)
    requires
        0 <= k <= words.len(),
    ensures
        ranked_upto(words, k).len() == k,
        ranked_upto(words, k).to_multiset() == words.take(k).to_multiset(),
    decreases k,
{
    if k > 0 {
        lemma_ranked_upto_permutes(words, k - 1);
        let s = ranked_upto(words, k - 1);
        let w = words[k - 1];
        lemma_rank_pos_bounds(s, words, w);
        let p = rank_pos(s, words, w);
        let r = s.insert(p, w);
        assert(r.remove(p) =~= s);
        assert(r.to_multiset().remove(w) =~= s.to_multiset());
        assert(r.contains(w)) by {
            assert(r[p] == w);
        }
        assert(r.to_multiset() =~= s.to_multiset().insert(w));
        assert(words.take(k).drop_last() =~= words.take(k - 1));
        assert(words.take(k) =~= words.take(k - 1).push(w));
        assert(words.take(k).to_multiset() =~= words.take(k - 1).to_multiset().insert(w));
    } else {
        assert(ranked_upto(words, 0).to_multiset() =~= words.take(0).to_multiset());
    }
}

/// The ranking is a permutation: nothing is added or lost by
/// re-ordering.
pub proof fn lemma_frequency_ranked_permutes(words: Seq<Word>)
    ensures
        frequency_ranked(words).len() == words.len(),
        frequency_ranked(words).to_multiset() == words.to_multiset(),
{
    lemma_ranked_upto_permutes(words, words.len() as int);
    assert(words.take(words.len() as int) =~= words);
}

/// Any index with the defining properties is the stable insertion
/// point.
proof fn lemma_rank_pos_is(s: Seq<Word>, words: Seq<Word>, w: Word, r: int)
    requires
        0 <= r <= s.len(),
        forall|j: int| 0 <= j < r ==> sort_key(words, #[trigger] s[j]) <= sort_key(words, w),
        r < s.len() ==> sort_key(words, s[r]) > sort_key(words, w),
    ensures
        rank_pos(s, words, w) == r,
    decreases s.len(),
{
    if s.len() == 0 {
    } else if sort_key(words, s[0]) > sort_key(words, w) {
        assert(r == 0);
    } else {
        assert(r >= 1);
        let t = s.drop_first();
        assert forall|j: int| 0 <= j < r - 1 implies sort_key(words, #[trigger] t[j]) <= sort_key(
            words,
            w,
        ) by {
            assert(t[j] == s[j + 1]);
        }
        if r - 1 < t.len() {
            assert(t[r - 1] == s[r]);
        }
        lemma_rank_pos_is(t, words, w, r - 1);
    }
}

/// Re-sorts a word list by the frequency-and-uniqueness heuristic
/// computed over the list itself: the result is a permutation of the
/// input, ordered by `sort_key` against the input.
pub fn sort_by_frequency(words: &mut Vec<Word>)
    requires
        old(words)@.len() <= 0x1000_0000,
    ensures
        final(words)@ == frequency_ranked(old(words)@),
        final(words)@.len() == old(words)@.len(),
        final(words)@.to_multiset() == old(words)@.to_multiset(),
        sorted_by_frequency(old(words)@, final(words)@),
{
    let ghost orig = words@;
    let table = build_freq_table(words);
    let n = words.len();
    let mut out: Vec<Word> = Vec::new();
    proof {
        assert(out@.to_multiset() =~= orig.take(0).to_multiset());
    }
    let mut i: usize = 0;
    while i < n
        invariant
            n == words@.len(),
            words@ == orig,
            orig.len() <= 0x1000_0000,
            table@.len() == 130,
            forall|p: int, ord: int|
                0 <= p < 5 && 0 <= ord < 26 ==> table@[p * 26 + ord] == #[trigger] freq_at(
                    orig,
                    p,
                    ord,
                ),
            i <= n,
            out@.len() == i,
            out@ == ranked_upto(orig, i as int),
            out@.to_multiset() == orig.take(i as int).to_multiset(),
            sorted_by_frequency(orig, out@),
        decreases n - i,
    {
        let w = words[i];
        let kw = key_of(&table, w, Ghost(orig));
        let mut p: usize = 0;
        loop
            invariant_except_break
                p <= out@.len(),
                kw == sort_key(orig, w),
                table@.len() == 130,
                orig.len() <= 0x1000_0000,
                forall|pp: int, ord: int|
                    0 <= pp < 5 && 0 <= ord < 26 ==> table@[pp * 26 + ord] == #[trigger] freq_at(
                        orig,
                        pp,
                        ord,
                    ),
                forall|a: int| 0 <= a < p ==> sort_key(orig, #[trigger] out@[a]) <= kw,
            ensures
                p <= out@.len(),
                forall|a: int| 0 <= a < p ==> sort_key(orig, #[trigger] out@[a]) <= kw,
                p < out@.len() ==> sort_key(orig, out@[p as int]) > kw,
            decreases out@.len() - p,
        {
            if p >= out.len() {
                break ;
            }
            let kp = key_of(&table, out[p], Ghost(orig));
            if kp > kw {
                break ;
            }
            p += 1;
        }
        let ghost before = out@;
        proof {
            lemma_rank_pos_is(before, orig, w, p as int);
        }
        out.insert(p, w);
        proof {
            assert(out@ == ranked_upto(orig, i as int + 1));
            assert(out@.remove(p as int) =~= before);
            assert(out@.to_multiset().remove(w) =~= before.to_multiset());
            assert(out@.contains(w)) by {
                assert(out@[p as int] == w);
            }
            assert(out@.to_multiset() =~= before.to_multiset().insert(w));
            assert(orig.take(i as int + 1).drop_last() =~= orig.take(i as int));
            assert(orig.take(i as int + 1) =~= orig.take(i as int).push(w));
            assert(orig.take(i as int + 1).to_multiset() =~= orig.take(
                i as int,
            ).to_multiset().insert(w));
            assert forall|a: int, b: int| 0 <= a < b < out@.len() implies sort_key(
                orig,
                #[trigger] out@[a],
            ) <= sort_key(orig, #[trigger] out@[b]) by {
                if b < p {
                    assert(out@[a] == before[a] && out@[b] == before[b]);
                } else if a > p {
                    assert(out@[a] == before[a - 1] && out@[b] == before[b - 1]);
                } else if a == p {
                    assert(out@[a] == w && out@[b] == before[b - 1]);
                } else if b == p {
                    assert(out@[a] == before[a] && out@[b] == w);
                } else {
                    assert(a < p && b > p);
                    assert(out@[a] == before[a] && out@[b] == before[b - 1]);
                }
            }
        }
        i += 1;
    }
    proof {
        assert(orig.take(n as int) =~= orig);
    }
    words.clear();
    let mut j: usize = 0;
    let m = out.len();
    while j < m
        invariant
            m == out@.len(),
            j <= m,
            words@ == out@.take(j as int),
        decreases m - j,
    {
        let ghost before = words@;
        words.push(out[j]);
        proof {
            assert(words@ =~= out@.take(j as int + 1));
        }
        j += 1;
    }
    proof {
        assert(words@ =~= out@);
    }
}

} // verus!
