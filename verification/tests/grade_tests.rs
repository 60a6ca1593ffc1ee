use wordle_solver::cartesian_prod;
use wordle_solver::check_word;
use wordle_solver::grade_many;
use wordle_solver::sort_by_frequency;
use wordle_solver::Attempts;
use wordle_solver::FeedbackMap;
use wordle_solver::GradeStrategy;
use wordle_solver::LetterFeedback;
use wordle_solver::Positions;
use wordle_solver::Word;
use wordle_solver::WordFeedback;

fn word(s: &str) -> Word {
    Word::from_byte_slice(s.as_bytes()).expect("test words are valid")
}

#[test]
fn grading_scenario_react_against_crate() {
    let fb = check_word(word("CRATE"), word("REACT"));
    assert_eq!(
        fb.0,
        [
            LetterFeedback::Required,
            LetterFeedback::Required,
            LetterFeedback::Confirmed,
            LetterFeedback::Required,
            LetterFeedback::Required,
        ]
    );
}

#[test]
fn grading_scenario_exact_match() {
    let fb = check_word(word("CRATE"), word("CRATE"));
    assert_eq!(fb.0, [LetterFeedback::Confirmed; 5]);
    assert!(fb.is_all_confirmed());
}

#[test]
fn grading_mixed_feedback() {
    // Secret SLATE, guess CRATE: C absent, R absent, A/T/E in place.
    let fb = check_word(word("SLATE"), word("CRATE"));
    assert_eq!(
        fb.0,
        [
            LetterFeedback::Excluded,
            LetterFeedback::Excluded,
            LetterFeedback::Confirmed,
            LetterFeedback::Confirmed,
            LetterFeedback::Confirmed,
        ]
    );
}

#[test]
fn grading_repeated_letters_are_not_capped() {
    // Secret ROBIN has one O, yet all three misplaced O slots of the
    // guess grade Required: the per-slot rule does not cap repeats.
    let fb = check_word(word("ROBIN"), word("OXOXO"));
    assert_eq!(fb.0[0], LetterFeedback::Required);
    assert_eq!(fb.0[1], LetterFeedback::Excluded);
    assert_eq!(fb.0[2], LetterFeedback::Required);
    assert_eq!(fb.0[3], LetterFeedback::Excluded);
    assert_eq!(fb.0[4], LetterFeedback::Required);
}

#[test]
fn feedback_encoding_is_base_three() {
    let fb = WordFeedback([
        LetterFeedback::Excluded,
        LetterFeedback::Required,
        LetterFeedback::Confirmed,
        LetterFeedback::Excluded,
        LetterFeedback::Excluded,
    ]);
    assert_eq!(fb.to_u64(), 1 * 3 + 2 * 9);
    let all = WordFeedback([LetterFeedback::Confirmed; 5]);
    assert_eq!(all.to_u64(), 242);
    let none = WordFeedback([LetterFeedback::Excluded; 5]);
    assert_eq!(none.to_u64(), 0);
}

#[test]
fn bulk_grading_strategies_agree() {
    let guesses: Vec<Word> = vec![
        word("CRATE"),
        word("REACT"),
        word("SLATE"),
        word("BLIMP"),
        word("GUSTY"),
        word("FROND"),
    ];
    let words: Vec<Word> = vec![word("TRACE"), word("STALE"), word("CRATE"), word("QUERY")];
    let mut seq_buf: Vec<WordFeedback> = Vec::new();
    let mut thr_buf: Vec<WordFeedback> = Vec::new();
    let mut vec_buf: Vec<WordFeedback> = Vec::new();
    grade_many(&guesses, &words, GradeStrategy::Sequential, &mut seq_buf);
    grade_many(&guesses, &words, GradeStrategy::Threaded, &mut thr_buf);
    grade_many(&guesses, &words, GradeStrategy::Vectorized, &mut vec_buf);
    assert_eq!(seq_buf.len(), guesses.len() * words.len());
    assert_eq!(seq_buf, thr_buf);
    assert_eq!(seq_buf, vec_buf);
    for (i, g) in guesses.iter().enumerate() {
        for (j, w) in words.iter().enumerate() {
            assert_eq!(seq_buf[i * words.len() + j], check_word(*w, *g));
        }
    }
}

#[test]
fn bulk_grading_reuses_the_buffer() {
    let guesses: Vec<Word> = vec![word("CRATE")];
    let words: Vec<Word> = vec![word("TRACE"), word("CRATE")];
    let mut buf: Vec<WordFeedback> = Vec::new();
    grade_many(&guesses, &words, GradeStrategy::Sequential, &mut buf);
    assert_eq!(buf.len(), 2);
    let longer: Vec<Word> = vec![word("TRACE"), word("CRATE"), word("SLATE")];
    grade_many(&guesses, &longer, GradeStrategy::Sequential, &mut buf);
    assert_eq!(buf.len(), 3);
    assert_eq!(buf[2], check_word(word("SLATE"), word("CRATE")));
}

#[test]
fn cartesian_product_is_row_major() {
    let a: Vec<Word> = vec![word("CRATE"), word("SLATE")];
    let b: Vec<Word> = vec![word("BLIMP"), word("GUSTY"), word("FROND")];
    let grid = cartesian_prod(&a, &b);
    assert_eq!(grid.len(), 6);
    assert_eq!(grid[0], (word("CRATE"), word("BLIMP")));
    assert_eq!(grid[1], (word("CRATE"), word("GUSTY")));
    assert_eq!(grid[2], (word("CRATE"), word("FROND")));
    assert_eq!(grid[3], (word("SLATE"), word("BLIMP")));
    assert_eq!(grid[5], (word("SLATE"), word("FROND")));
}

#[test]
fn positions_singleton_round_trip() {
    for i in 0..5usize {
        let p = Positions::from_index(i).unwrap();
        assert_eq!(p.into_index(), i);
        assert!(p.contains(i));
        assert_eq!(p.count_ones(), 1);
    }
    assert!(Positions::from_index(5).is_none());
    assert!(Positions::from_index(9).is_none());
}

#[test]
fn positions_set_algebra() {
    let mut p = Positions::empty();
    assert!(p.is_empty());
    assert_eq!(p.count_ones(), 0);
    p.insert(1);
    p.insert(3);
    assert!(p.contains(1) && p.contains(3));
    assert!(!p.contains(0) && !p.contains(2) && !p.contains(4));
    assert_eq!(p.count_ones(), 2);
    let q = Positions::from_index(0).unwrap();
    let u = p.union(q);
    assert_eq!(u.count_ones(), 3);
    assert!(u.contains(0) && u.contains(1) && u.contains(3));
    let c = u.complement();
    assert_eq!(c.count_ones(), 2);
    assert!(c.contains(2) && c.contains(4));
    assert!(!c.contains(0) && !c.contains(1) && !c.contains(3));
}

#[test]
fn feedback_map_groups_by_key() {
    let mut m = FeedbackMap::with_capacity(4);
    assert_eq!(m.len(), 0);
    m.push_word(5, word("CRATE"));
    m.push_word(2, word("SLATE"));
    m.push_word(5, word("TRACE"));
    assert_eq!(m.len(), 2);
    let entries = m.entries();
    assert_eq!(entries[0].0, 2);
    assert_eq!(entries[0].1, vec![word("SLATE")]);
    assert_eq!(entries[1].0, 5);
    assert_eq!(entries[1].1, vec![word("CRATE"), word("TRACE")]);
    assert_eq!(m.max_bucket_len(), 2);
    assert_eq!(m.total_len(), 3);
    assert_eq!(m.potency_sum(), 16 + 1);
}

#[test]
fn frequency_sort_ranks_by_score_and_uniqueness() {
    let mut words: Vec<Word> = vec![word("AAAAA"), word("AAAAB"), word("BBBBB"), word("QWERT")];
    sort_by_frequency(&mut words);
    // QWERT is the only word with five distinct letters, so it leads;
    // the rest follow by descending positional frequency score.
    assert_eq!(
        words,
        vec![word("QWERT"), word("AAAAB"), word("AAAAA"), word("BBBBB")]
    );
}

#[test]
fn frequency_sort_is_stable_on_ties() {
    // AAABB and AAACC tie on every ranking criterion, so whichever
    // came first stays first.
    let mut ws: Vec<Word> = vec![word("AAABB"), word("AAACC")];
    sort_by_frequency(&mut ws);
    assert_eq!(ws, vec![word("AAABB"), word("AAACC")]);
    let mut sw: Vec<Word> = vec![word("AAACC"), word("AAABB")];
    sort_by_frequency(&mut sw);
    assert_eq!(sw, vec![word("AAACC"), word("AAABB")]);
}

#[test]
fn attempts_record_up_to_six_rows() {
    let mut a = Attempts::new();
    assert_eq!(a.len(), 0);
    let fb = check_word(word("CRATE"), word("SLATE"));
    a.push(fb);
    a.push(check_word(word("CRATE"), word("CRATE")));
    assert_eq!(a.len(), 2);
    assert_eq!(a.rows()[0], fb);
    assert!(a.rows()[1].is_all_confirmed());
}
