use wordle_solver::check_word;
use wordle_solver::GradeStrategy;
use wordle_solver::Guesser;
use wordle_solver::Letter;
use wordle_solver::LetterFeedback;
use wordle_solver::Word;
use wordle_solver::WordFeedback;

fn word(s: &str) -> Word {
    Word::from_byte_slice(s.as_bytes()).expect("test words are valid")
}

fn feedback_round(secret: Word, guess: Word) -> [(Letter, LetterFeedback); 5] {
    let fb = check_word(secret, guess);
    [
        (guess.0[0], fb.0[0]),
        (guess.0[1], fb.0[1]),
        (guess.0[2], fb.0[2]),
        (guess.0[3], fb.0[3]),
        (guess.0[4], fb.0[4]),
    ]
}

fn confirmed_count(g: &Guesser) -> usize {
    (0..5).filter(|&i| g.confirmed_at(i).is_some()).count()
}

#[test]
fn fresh_guesser_offers_the_whole_dictionary() {
    let dict: Vec<Word> = vec![word("CRATE"), word("SLATE"), word("BLIMP")];
    let g = Guesser::new(&dict, Vec::new());
    assert_eq!(g.candidates().len(), 3);
    assert_eq!(g.guess(), Some(word("CRATE")));
    assert!(g.confirmed_word().is_none());
    let buf = g.extract_resources();
    assert_eq!(buf.len(), 3);
}

#[test]
fn winning_round_confirms_the_word() {
    let dict: Vec<Word> = vec![word("CRATE"), word("SLATE")];
    let mut g = Guesser::new(&dict, Vec::new());
    let round = feedback_round(word("CRATE"), word("CRATE"));
    assert!(g.analyze(round).is_ok());
    assert_eq!(g.confirmed_word(), Some(word("CRATE")));
}

#[test]
fn constraint_scenario_filters_candidates() {
    // After excluding Q, Z, X, J, K and requiring S away from the first
    // slot, no candidate may start with S or contain any excluded
    // letter, and every candidate must contain S.
    let dict: Vec<Word> = vec![
        word("STARE"),
        word("RAISE"),
        word("QUAKE"),
        word("TRAIN"),
        word("ZESTY"),
        word("ROAST"),
        word("KNEES"),
    ];
    let mut g = Guesser::new(&dict, Vec::new());
    assert!(g
        .analyze([
            (Letter::S, LetterFeedback::Required),
            (Letter::Q, LetterFeedback::Excluded),
            (Letter::Z, LetterFeedback::Excluded),
            (Letter::X, LetterFeedback::Excluded),
            (Letter::J, LetterFeedback::Excluded),
        ])
        .is_ok());
    assert!(g
        .analyze([
            (Letter::K, LetterFeedback::Excluded),
            (Letter::K, LetterFeedback::Excluded),
            (Letter::K, LetterFeedback::Excluded),
            (Letter::K, LetterFeedback::Excluded),
            (Letter::K, LetterFeedback::Excluded),
        ])
        .is_ok());
    let mut scratch: Vec<WordFeedback> = Vec::new();
    g.prune(2, &dict, GradeStrategy::Sequential, &mut scratch);
    let survivors = g.candidates().clone();
    assert!(!survivors.is_empty());
    for w in survivors.iter() {
        let bytes = w.to_bytes();
        assert_ne!(bytes[0], b'S');
        for b in bytes.iter() {
            assert!(![b'Q', b'Z', b'X', b'J', b'K'].contains(b));
        }
        assert!(w.contains(Letter::S));
    }
    assert!(survivors.contains(&word("RAISE")));
    assert!(survivors.contains(&word("ROAST")));
    assert_eq!(survivors.len(), 2);
}

#[test]
fn pigeonhole_promotes_the_last_open_slot() {
    // Slots 0..3 are confirmed to other letters and E may not sit in
    // slot 3, so E can only occupy slot 4 and is confirmed there at
    // once.
    let dict: Vec<Word> = vec![word("ABCDE")];
    let mut g = Guesser::new(&dict, Vec::new());
    assert!(g
        .analyze([
            (Letter::A, LetterFeedback::Confirmed),
            (Letter::B, LetterFeedback::Confirmed),
            (Letter::C, LetterFeedback::Confirmed),
            (Letter::E, LetterFeedback::Required),
            (Letter::D, LetterFeedback::Excluded),
        ])
        .is_ok());
    assert_eq!(g.confirmed_at(0), Some(Letter::A));
    assert_eq!(g.confirmed_at(1), Some(Letter::B));
    assert_eq!(g.confirmed_at(2), Some(Letter::C));
    assert_eq!(g.confirmed_at(3), None);
    assert_eq!(g.confirmed_at(4), Some(Letter::E));
}

#[test]
fn contradictory_feedback_is_fatal() {
    // Every slot is already confirmed to another letter, yet E is
    // required and forbidden from the one slot it names: no word can
    // satisfy that feedback.
    let dict: Vec<Word> = vec![word("CRATE")];
    let mut g = Guesser::new(&dict, Vec::new());
    assert!(g
        .analyze([
            (Letter::A, LetterFeedback::Confirmed),
            (Letter::B, LetterFeedback::Confirmed),
            (Letter::C, LetterFeedback::Confirmed),
            (Letter::D, LetterFeedback::Confirmed),
            (Letter::F, LetterFeedback::Confirmed),
        ])
        .is_ok());
    let r = g.analyze([
        (Letter::E, LetterFeedback::Required),
        (Letter::B, LetterFeedback::Confirmed),
        (Letter::C, LetterFeedback::Confirmed),
        (Letter::D, LetterFeedback::Confirmed),
        (Letter::F, LetterFeedback::Confirmed),
    ]);
    assert!(r.is_err());
}

#[test]
fn confirmation_count_never_decreases() {
    let dict: Vec<Word> = vec![word("CRATE"), word("TRACE"), word("GRATE"), word("IRATE")];
    let secret = word("CRATE");
    let mut g = Guesser::new(&dict, Vec::new());
    let mut scratch: Vec<WordFeedback> = Vec::new();
    let mut last = confirmed_count(&g);
    for (turn, probe) in [word("IRATE"), word("GRATE"), word("TRACE")].iter().enumerate() {
        assert!(g.analyze(feedback_round(secret, *probe)).is_ok());
        g.prune(turn as u32 + 1, &dict, GradeStrategy::Sequential, &mut scratch);
        let now = confirmed_count(&g);
        assert!(now >= last, "confirmed slots fell from {last} to {now}");
        last = now;
    }
}

#[test]
fn self_play_keeps_the_secret_and_wins() {
    let dict: Vec<Word> = vec![
        word("CRATE"),
        word("TRACE"),
        word("REACT"),
        word("STALE"),
        word("SLATE"),
        word("BLIMP"),
        word("FROND"),
        word("GUSTY"),
    ];
    let mut candidates_buf = Some(Vec::new());
    let mut scratch: Vec<WordFeedback> = Vec::new();
    for secret in dict.iter() {
        let mut g = Guesser::new(&dict, candidates_buf.take().unwrap());
        let mut won = false;
        for turn in 1..=6u32 {
            let suggestion = g.guess().expect("a suggestion should always exist");
            if suggestion == *secret {
                won = true;
                break;
            }
            assert!(g.analyze(feedback_round(*secret, suggestion)).is_ok());
            g.prune(turn, &dict, GradeStrategy::Sequential, &mut scratch);
            assert!(
                g.candidates().contains(secret),
                "the secret must never leave the candidate list"
            );
        }
        assert!(won, "failed to identify {:?} in six turns", secret.to_bytes());
        candidates_buf = Some(g.extract_resources());
    }
}

#[test]
fn exhausted_candidates_report_no_viable_word() {
    // Feedback honest for a secret outside the dictionary can empty the
    // candidate list; that is reported, not a crash.
    let dict: Vec<Word> = vec![word("AAAAA")];
    let mut g = Guesser::new(&dict, Vec::new());
    let secret = word("BBBBB");
    assert!(g.analyze(feedback_round(secret, word("AAAAA"))).is_ok());
    let mut scratch: Vec<WordFeedback> = Vec::new();
    g.prune(1, &dict, GradeStrategy::Sequential, &mut scratch);
    assert!(g.candidates().is_empty());
    assert_eq!(g.guess(), None);
}

#[test]
fn prune_in_the_probe_band_keeps_every_survivor() {
    // A small ambiguous field: all candidates share four letters, so a
    // probe may be injected, but every surviving candidate must stay.
    let dict: Vec<Word> = vec![
        word("LIGHT"),
        word("NIGHT"),
        word("RIGHT"),
        word("SIGHT"),
        word("TIGHT"),
        word("WIGHT"),
        word("LANKY"),
        word("NOSER"),
    ];
    let secret = word("RIGHT");
    let mut g = Guesser::new(&dict, Vec::new());
    let mut scratch: Vec<WordFeedback> = Vec::new();
    assert!(g.analyze(feedback_round(secret, word("LANKY"))).is_ok());
    g.prune(1, &dict, GradeStrategy::Threaded, &mut scratch);
    let survivors: Vec<Word> = g.candidates().clone();
    for w in [word("RIGHT"), word("SIGHT"), word("TIGHT"), word("WIGHT")] {
        assert!(survivors.contains(&w), "{:?} was wrongly pruned", w.to_bytes());
    }
    // LIGHT and NIGHT carry excluded letters, as do the probes.
    assert!(!survivors.contains(&word("LIGHT")));
    assert!(!survivors.contains(&word("NIGHT")));
    assert!(!survivors.contains(&word("LANKY")));
    // At most one injected probe beyond the four survivors, and it must
    // come from the dictionary.
    assert!(survivors.len() <= 4 + 1);
    let first = g.guess().unwrap();
    assert!(dict.contains(&first));
}

#[test]
fn tiebreaker_probe_is_injected_when_it_wins() {
    // Four candidates share their last four letters, so any candidate
    // guessed organically splits them into only two buckets.  WALTS is
    // no candidate (it carries the excluded A) but splits them into
    // three buckets, so the selector injects it as the next suggestion.
    let dict: Vec<Word> = vec![
        word("RIGHT"),
        word("SIGHT"),
        word("TIGHT"),
        word("WIGHT"),
        word("LANKY"),
        word("WALTS"),
    ];
    let secret = word("RIGHT");
    let mut g = Guesser::new(&dict, Vec::new());
    let mut scratch: Vec<WordFeedback> = Vec::new();
    assert!(g.analyze(feedback_round(secret, word("LANKY"))).is_ok());
    g.prune(1, &dict, GradeStrategy::Vectorized, &mut scratch);
    assert_eq!(g.guess(), Some(word("WALTS")));
    assert_eq!(g.candidates().len(), 5);
    for w in [word("RIGHT"), word("SIGHT"), word("TIGHT"), word("WIGHT")] {
        assert!(g.candidates().contains(&w));
    }
}
