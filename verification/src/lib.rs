//! An automatic player for the word-guessing game Wordle.
//!
//! The engine narrows a dictionary of five-letter words against tri-state
//! per-letter feedback until the secret word is identified or the turn
//! budget runs out.  The core pieces are the feedback grader, the
//! constraint tracker with its pigeonhole deduction, the candidate pruner,
//! and the information-theoretic tiebreaker.

use vstd::prelude::*;

pub mod dictionary;
pub mod feedback;
pub mod fmap;
pub mod guess;
pub mod play;
pub mod word;

pub use dictionary::sort_by_frequency;
pub use feedback::LetterFeedback;
pub use feedback::Positions;
pub use feedback::WordFeedback;
pub use fmap::FeedbackMap;
pub use guess::Contradiction;
pub use guess::Guesser;
pub use play::cartesian_prod;
pub use play::check_word;
pub use play::grade_many;
pub use play::GradeStrategy;
pub use word::Letter;
pub use word::Word;

verus! {

/// How the surrounding application runs a session.
#[derive(Clone, Copy, Debug)]
pub enum RunMode {
    /// Interactive line-based play.
    Interactive,
    /// Play a number of games and aggregate win/loss statistics.
    /// Verbose narration is disabled in this mode.
    Stats(usize),
    /// Provide the winning word and watch the engine solve it.
    Auto(Word),
}

/// The explicit configuration value threaded into the components that
/// need it; it gates diagnostic narration only and never alters the
/// algorithmic outcome of pruning or selection.
#[derive(Clone, Copy, Debug)]
pub struct AppOptions {
    /// Print the strategy's reasoning while it plays.
    pub is_verbose: bool,
    /// Every confirmed letter must be reused in subsequent guesses.
    pub is_hardmode: bool,
    /// The selected session kind.
    pub run_mode: RunMode,
}

/// The feedback rows of one game, at most six.
#[derive(Clone, Debug)]
pub struct Attempts {
    rows: Vec<WordFeedback>,
}

impl View for Attempts {
    type V = Seq<WordFeedback>;

    closed spec fn view(&self) -> Seq<WordFeedback> {
        self.rows@
    }
}

impl Attempts {
    /// An empty board.
    pub fn new() -> (r: Attempts)
        ensures
            r@.len() == 0,
    {
        Attempts { rows: Vec::new() }
    }

    /// Records one turn's feedback; the game allows at most six turns.
    pub fn push(&mut self, stats: WordFeedback)
        requires
            old(self)@.len() < 6,
        ensures
            final(self)@ == old(self)@.push(stats),
    {
        self.rows.push(stats);
    }

    /// The number of turns recorded.
    pub fn len(&self) -> (r: usize)
        ensures
            r == self@.len(),
    {
        self.rows.len()
    }

    /// The recorded feedback rows, oldest first.
    pub fn rows(&self) -> (r: &Vec<WordFeedback>)
        ensures
            r@ == self@,
    {
        &self.rows
    }
}

} // verus!
