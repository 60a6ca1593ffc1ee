//! The feedback grader: the pure function from (secret, guess) to a
//! five-slot feedback signature, and the bulk form computing a full
//! guess-by-word matrix under three interchangeable strategies that agree
//! bit for bit.

use vstd::prelude::*;

use crate::feedback::LetterFeedback;
use crate::feedback::WordFeedback;
use crate::word::letter_of_ord;
use crate::word::letter_ord;
use crate::word::word_contains;
use crate::word::Word;
use rayon::prelude::ParallelIterator;
use rayon::prelude::ParallelSlice;

verus! {

/// The grading rule for one slot: `Confirmed` on an exact match,
/// otherwise `Required` when the secret contains the guessed letter
/// anywhere, otherwise `Excluded`.  The rule is positionally local: it
/// does not cap `Required` results by the count of unmatched occurrences
/// of a repeated letter.
pub open spec fn grade_slot(secret: Word, guess: Word, i: int) -> LetterFeedback {
    if secret@[i] == guess@[i] {
        LetterFeedback::Confirmed
    } else if word_contains(secret, guess@[i]) {
        LetterFeedback::Required
    } else {
        LetterFeedback::Excluded
    }
}

/// The full five-slot feedback of a guess against a secret.
pub open spec fn grade(secret: Word, guess: Word) -> Seq<LetterFeedback> {
    Seq::new(5, |i: int| grade_slot(secret, guess, i))
}

/// Grades one slot of a guess against a secret.
fn classify_slot(secret: &Word, guess: &Word, i: usize) -> (r: LetterFeedback)
    requires
        i < 5,
    ensures
        r == grade_slot(*secret, *guess, i as int),
{
    if secret.0[i] == guess.0[i] {
        LetterFeedback::Confirmed
    } else if secret.contains(guess.0[i]) {
        LetterFeedback::Required
    } else {
        LetterFeedback::Excluded
    }
}

/// The secret-word oracle: the feedback the game would give for `guess`
/// when the secret is `word`.
pub fn check_word(word: Word, guess: Word) -> (r: WordFeedback)
    ensures
        r@ == grade(word, guess),
        r@.len() == 5,
{
    let r = WordFeedback(
        [
            classify_slot(&word, &guess, 0),
            classify_slot(&word, &guess, 1),
            classify_slot(&word, &guess, 2),
            classify_slot(&word, &guess, 3),
            classify_slot(&word, &guess, 4),
        ],
    );
    assert(r@ =~= grade(word, guess));
    r
}

/// One row of the feedback matrix: `guess` graded against every word.
pub fn grade_row(guess: &Word, words: &Vec<Word>) -> (r: Vec<WordFeedback>)
    ensures
        r@.len() == words@.len(),
        forall|j: int| 0 <= j < words@.len() ==> #[trigger] r@[j]@ == grade(words@[j], *guess),
{
    let mut r: Vec<WordFeedback> = Vec::new();
    let n = words.len();
    for j in 0..n
        invariant
            n == words@.len(),
            r@.len() == j,
            forall|k: int| 0 <= k < j ==> #[trigger] r@[k]@ == grade(words@[k], *guess),
    {
        r.push(check_word(words[j], *guess));
    }
    r
}

/// Relies on rayon's `par_chunks`, `map` and `collect`: an indexed
/// parallel iterator collects into a `Vec` in the same order the chunks
/// have in the source slice, so the concatenation of the returned row
/// groups equals the sequential result.  The closure only calls the
/// verified `grade_row`.
#[verifier::external_body]
fn grade_rows_threaded(guesses: &Vec<Word>, words: &Vec<Word>) -> (r: Vec<Vec<WordFeedback>>)
    ensures
        r@.len() == guesses@.len(),
        forall|i: int| 0 <= i < guesses@.len() ==> #[trigger] r@[i]@.len() == words@.len(),
        forall|i: int, j: int|
            0 <= i < guesses@.len() && 0 <= j < words@.len() ==> r@[i]@[j]@ == grade(
                words@[j],
                guesses@[i],
            ),
{
    guesses.par_chunks(1).map(|g| grade_row(&g[0], words)).collect::<Vec<Vec<WordFeedback>>>()
}

/// How a bulk grading call is evaluated; all strategies produce
/// identical output.
#[derive(Clone, Copy, PartialEq, Eq, Structural, Debug)]
pub enum GradeStrategy {
    /// One pass on the calling thread.
    Sequential,
    /// Rows distributed over a worker pool, one disjoint output range
    /// each.
    Threaded,
    /// A per-letter-presence-mask form, trading bookkeeping for
    /// throughput.
    Vectorized,
}

/// Whether the bit for ordinal `ord` is set in a letter-presence mask.
pub open spec fn lmask_has(mask: u32, ord: int) -> bool {
    (mask >> (ord as u32)) & 1 == 1
}

/// A five-letter presence mask holds exactly the ordinals of its five
/// letters.
proof fn lemma_mask5(b0: u32, b1: u32, b2: u32, b3: u32, b4: u32)
    by (bit_vector)
    requires
        b0 < 26,
        b1 < 26,
        b2 < 26,
        b3 < 26,
        b4 < 26,
    ensures
        forall|o: u32|
            o < 26 ==> ((((((1u32 << b0) | (1u32 << b1) | (1u32 << b2) | (1u32 << b3) | (1u32
                << b4)) >> o) & 1) == 1) <==> (o == b0 || o == b1 || o == b2 || o == b3 || o == b4)),
{
}

/// The 26-bit presence mask of a word: bit `ord` is set exactly when the
/// word contains the letter with that ordinal.
fn word_mask(w: &Word) -> (r: u32)
    ensures
        forall|ord: int| 0 <= ord < 26 ==> (lmask_has(r, ord) <==> word_contains(*w, letter_of_ord(ord))),
{
    let b0 = w.0[0].index() as u32;
    let b1 = w.0[1].index() as u32;
    let b2 = w.0[2].index() as u32;
    let b3 = w.0[3].index() as u32;
    let b4 = w.0[4].index() as u32;
    let r = (1u32 << b0) | (1u32 << b1) | (1u32 << b2) | (1u32 << b3) | (1u32 << b4);
    proof {
        lemma_mask5(b0, b1, b2, b3, b4);
        crate::word::lemma_letter_ord_bijective();
        assert forall|ord: int| 0 <= ord < 26 implies (lmask_has(r, ord) <==> word_contains(
            *w,
            letter_of_ord(ord),
        )) by {
            let o = ord as u32;
            assert((((r >> o) & 1) == 1) <==> (o == b0 || o == b1 || o == b2 || o == b3 || o == b4));
            let ch = letter_of_ord(ord);
            if o == b0 || o == b1 || o == b2 || o == b3 || o == b4 {
                if o == b0 {
                    assert(w@[0] == ch);
                } else if o == b1 {
                    assert(w@[1] == ch);
                } else if o == b2 {
                    assert(w@[2] == ch);
                } else if o == b3 {
                    assert(w@[3] == ch);
                } else {
                    assert(w@[4] == ch);
                }
            }
            if word_contains(*w, ch) {
                let i = choose|i: int| 0 <= i < 5 && w@[i] == ch;
                assert(letter_ord(w@[i]) == ord);
            }
        }
    }
    r
}

/// Grades one slot using a precomputed presence mask of the secret.
fn classify_slot_masked(secret: &Word, smask: u32, guess: &Word, i: usize) -> (r: LetterFeedback)
    requires
        i < 5,
        forall|ord: int|
            0 <= ord < 26 ==> (lmask_has(smask, ord) <==> word_contains(
                *secret,
                letter_of_ord(ord),
            )),
    ensures
        r == grade_slot(*secret, *guess, i as int),
{
    let g = guess.0[i];
    if secret.0[i] == g {
        LetterFeedback::Confirmed
    } else {
        let ord = g.index() as u32;
        let hit = (smask >> ord) & 1 == 1;
        proof {
            crate::word::lemma_letter_ord_bijective();
            assert(letter_of_ord(letter_ord(g)) == g);
            assert(ord == letter_ord(g) as u32);
            assert(hit == lmask_has(smask, letter_ord(g)));
            assert(lmask_has(smask, letter_ord(g)) <==> word_contains(
                *secret,
                letter_of_ord(letter_ord(g)),
            ));
        }
        if hit {
            LetterFeedback::Required
        } else {
            LetterFeedback::Excluded
        }
    }
}

/// Grades every (guess, word) pair, writing the row for guess `i` at
/// offset `i * words.len()` of `buffer`.  The scratch buffer is owned by
/// the caller so it can be reused across calls; it is cleared first.
/// Every strategy fills it with the same matrix.
pub fn grade_many(
    guesses: &Vec<Word>,
    words: &Vec<Word>,
    strategy: GradeStrategy,
    buffer: &mut Vec<WordFeedback>,
)
    requires
        guesses@.len() * words@.len() <= usize::MAX,
    ensures
        final(buffer)@.len() == guesses@.len() * words@.len(),
        forall|i: int, j: int|
            0 <= i < guesses@.len() && 0 <= j < words@.len() ==> final(buffer)@[i * words@.len()
                + j]@ == grade(words@[j], guesses@[i]),
{
    buffer.clear();
    let n = guesses.len();
    let m = words.len();
    match strategy {
        GradeStrategy::Threaded => {
            let rows = grade_rows_threaded(guesses, words);
            let mut i: usize = 0;
            while i < n
                invariant
                    n == guesses@.len(),
                    m == words@.len(),
                    n * m <= usize::MAX,
                    i <= n,
                    rows@.len() == n,
                    forall|k: int| 0 <= k < n ==> #[trigger] rows@[k]@.len() == m,
                    forall|k: int, j: int|
                        0 <= k < n && 0 <= j < m ==> rows@[k]@[j]@ == grade(words@[j], guesses@[k]),
                    buffer@.len() == i * m,
                    forall|k: int, j: int|
                        0 <= k < i && 0 <= j < m ==> buffer@[k * m + j]@ == grade(
                            words@[j],
                            guesses@[k],
                        ),
                decreases n - i,
            {
                proof {
                    lemma_row_bound(i as int, n as int, m as int);
                }
                let row = &rows[i];
                let mut j: usize = 0;
                while j < m
                    invariant
                        n == guesses@.len(),
                        m == words@.len(),
                        i < n,
                        j <= m,
                        (i + 1) * m <= n * m <= usize::MAX,
                        rows@.len() == n,
                        row == rows@[i as int],
                        row@.len() == m,
                        forall|jj: int|
                            0 <= jj < m ==> #[trigger] row@[jj]@ == grade(words@[jj], guesses@[i as int]),
                        forall|k: int, jj: int|
                            0 <= k < n && 0 <= jj < m ==> rows@[k]@[jj]@ == grade(
                                words@[jj],
                                guesses@[k],
                            ),
                        buffer@.len() == i * m + j,
                        forall|k: int, jj: int|
                            0 <= k < i && 0 <= jj < m ==> buffer@[k * m + jj]@ == grade(
                                words@[jj],
                                guesses@[k],
                            ),
                        forall|jj: int|
                            0 <= jj < j ==> buffer@[i as int * m + jj]@ == grade(
                                words@[jj],
                                guesses@[i as int],
                            ),
                    decreases m - j,
                {
                    proof {
                        assert forall|k: int, jj: int|
                            0 <= k < i && 0 <= jj < m implies 0 <= #[trigger] (k * m + jj) < i as int * m by {
                            lemma_index_in_row(k, jj, i as int, m as int);
                        }
                    }
                    buffer.push(row[j]);
                    j += 1;
                }
                i += 1;
                proof {
                    assert((i - 1) * m + m == i as int * m) by (nonlinear_arith);
                }
            }
        },
        GradeStrategy::Vectorized => {
            let mut masks: Vec<u32> = Vec::new();
            let mut j: usize = 0;
            while j < m
                invariant
                    m == words@.len(),
                    j <= m,
                    masks@.len() == j,
                    forall|k: int, ord: int|
                        0 <= k < j && 0 <= ord < 26 ==> (#[trigger] lmask_has(masks@[k], ord)
                            <==> word_contains(words@[k], letter_of_ord(ord))),
                decreases m - j,
            {
                masks.push(word_mask(&words[j]));
                j += 1;
            }
            let mut i: usize = 0;
            while i < n
                invariant
                    n == guesses@.len(),
                    m == words@.len(),
                    n * m <= usize::MAX,
                    i <= n,
                    masks@.len() == m,
                    forall|k: int, ord: int|
                        0 <= k < m && 0 <= ord < 26 ==> (#[trigger] lmask_has(masks@[k], ord)
                            <==> word_contains(words@[k], letter_of_ord(ord))),
                    buffer@.len() == i * m,
                    forall|k: int, jj: int|
                        0 <= k < i && 0 <= jj < m ==> buffer@[k * m + jj]@ == grade(
                            words@[jj],
                            guesses@[k],
                        ),
                decreases n - i,
            {
                proof {
                    lemma_row_bound(i as int, n as int, m as int);
                }
                let guess = guesses[i];
                let mut j: usize = 0;
                while j < m
                    invariant
                        n == guesses@.len(),
                        m == words@.len(),
                        i < n,
                        j <= m,
                        (i + 1) * m <= n * m <= usize::MAX,
                        guess == guesses@[i as int],
                        masks@.len() == m,
                        forall|k: int, ord: int|
                            0 <= k < m && 0 <= ord < 26 ==> (#[trigger] lmask_has(masks@[k], ord)
                                <==> word_contains(words@[k], letter_of_ord(ord))),
                        buffer@.len() == i * m + j,
                        forall|k: int, jj: int|
                            0 <= k < i && 0 <= jj < m ==> buffer@[k * m + jj]@ == grade(
                                words@[jj],
                                guesses@[k],
                            ),
                        forall|jj: int|
                            0 <= jj < j ==> buffer@[i as int * m + jj]@ == grade(
                                words@[jj],
                                guesses@[i as int],
                            ),
                    decreases m - j,
                {
                    let secret = &words[j];
                    let smask = masks[j];
                    let fb = WordFeedback(
                        [
                            classify_slot_masked(secret, smask, &guess, 0),
                            classify_slot_masked(secret, smask, &guess, 1),
                            classify_slot_masked(secret, smask, &guess, 2),
                            classify_slot_masked(secret, smask, &guess, 3),
                            classify_slot_masked(secret, smask, &guess, 4),
                        ],
                    );
                    assert(fb@ =~= grade(words@[j as int], guess));
                    proof {
                        assert forall|k: int, jj: int|
                            0 <= k < i && 0 <= jj < m implies 0 <= #[trigger] (k * m + jj) < i as int * m by {
                            lemma_index_in_row(k, jj, i as int, m as int);
                        }
                    }
                    buffer.push(fb);
                    j += 1;
                }
                i += 1;
                proof {
                    assert((i - 1) * m + m == i as int * m) by (nonlinear_arith);
                }
            }
        },
        GradeStrategy::Sequential => {
            let mut i: usize = 0;
            while i < n
                invariant
                    n == guesses@.len(),
                    m == words@.len(),
                    n * m <= usize::MAX,
                    i <= n,
                    buffer@.len() == i * m,
                    forall|k: int, jj: int|
                        0 <= k < i && 0 <= jj < m ==> buffer@[k * m + jj]@ == grade(
                            words@[jj],
                            guesses@[k],
                        ),
                decreases n - i,
            {
                proof {
                    lemma_row_bound(i as int, n as int, m as int);
                }
                let guess = guesses[i];
                let mut j: usize = 0;
                while j < m
                    invariant
                        n == guesses@.len(),
                        m == words@.len(),
                        i < n,
                        j <= m,
                        (i + 1) * m <= n * m <= usize::MAX,
                        guess == guesses@[i as int],
                        buffer@.len() == i * m + j,
                        forall|k: int, jj: int|
                            0 <= k < i && 0 <= jj < m ==> buffer@[k * m + jj]@ == grade(
                                words@[jj],
                                guesses@[k],
                            ),
                        forall|jj: int|
                            0 <= jj < j ==> buffer@[i as int * m + jj]@ == grade(
                                words@[jj],
                                guesses@[i as int],
                            ),
                    decreases m - j,
                {
                    proof {
                        assert forall|k: int, jj: int|
                            0 <= k < i && 0 <= jj < m implies 0 <= #[trigger] (k * m + jj) < i as int * m by {
                            lemma_index_in_row(k, jj, i as int, m as int);
                        }
                    }
                    buffer.push(check_word(words[j], guess));
                    j += 1;
                }
                i += 1;
                proof {
                    assert((i - 1) * m + m == i as int * m) by (nonlinear_arith);
                }
            }
        },
    }
}

/// An index inside an earlier row lies below the current row's start.
proof fn lemma_index_in_row(k: int, jj: int, i: int, m: int)
    by (nonlinear_arith)
    requires
        0 <= k < i,
        0 <= jj < m,
    ensures
        0 <= k * m + jj < i * m,
{
}

/// A full row fits below the matrix size.
proof fn lemma_row_bound(i: int, n: int, m: int)
    requires
        0 <= i < n,
        0 <= m,
    ensures
        (i + 1) * m <= n * m,
        i * m + m == (i + 1) * m,
{
    assert((i + 1) * m <= n * m) by (nonlinear_arith)
        requires
            0 <= i < n,
            0 <= m,
    ;
    assert(i * m + m == (i + 1) * m) by (nonlinear_arith);
}

/// The cross product of two word lists in row-major order.
pub fn cartesian_prod(a: &Vec<Word>, b: &Vec<Word>) -> (r: Vec<(Word, Word)>)
    requires
        a@.len() * b@.len() <= usize::MAX,
    ensures
        r@.len() == a@.len() * b@.len(),
        forall|i: int, j: int|
            0 <= i < a@.len() && 0 <= j < b@.len() ==> r@[i * b@.len() + j] == (a@[i], b@[j]),
{
    let n = a.len();
    let m = b.len();
    let mut r: Vec<(Word, Word)> = Vec::new();
    let mut i: usize = 0;
    while i < n
        invariant
            n == a@.len(),
            m == b@.len(),
            n * m <= usize::MAX,
            i <= n,
            r@.len() == i * m,
            forall|k: int, j: int| 0 <= k < i && 0 <= j < m ==> r@[k * m + j] == (a@[k], b@[j]),
        decreases n - i,
    {
        proof {
            lemma_row_bound(i as int, n as int, m as int);
        }
        let mut j: usize = 0;
        while j < m
            invariant
                n == a@.len(),
                m == b@.len(),
                i < n,
                j <= m,
                (i + 1) * m <= n * m <= usize::MAX,
                r@.len() == i * m + j,
                forall|k: int, jj: int|
                    0 <= k < i && 0 <= jj < m ==> r@[k * m + jj] == (a@[k], b@[jj]),
                forall|jj: int| 0 <= jj < j ==> r@[i as int * m + jj] == (a@[i as int], b@[jj]),
            decreases m - j,
        {
            proof {
                assert forall|k: int, jj: int|
                    0 <= k < i && 0 <= jj < m implies 0 <= #[trigger] (k * m + jj) < i as int * m by {
                    lemma_index_in_row(k, jj, i as int, m as int);
                }
            }
            r.push((a[i], b[j]));
            j += 1;
        }
        i += 1;
        proof {
            assert((i - 1) * m + m == i as int * m) by (nonlinear_arith);
        }
    }
    r
}

} // verus!
