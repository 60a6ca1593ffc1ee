//! The constraint tracker and guess engine: accumulates per-letter
//! knowledge across turns, performs the pigeonhole deduction that
//! promotes a required letter to a confirmed slot, prunes the candidate
//! list, and selects probe words that best split the remaining
//! candidates.

use vstd::prelude::*;

use crate::feedback::pos_bit;
use crate::feedback::pos_contains;
use crate::feedback::pos_wf;
use crate::feedback::LetterFeedback;
use crate::feedback::Positions;
use crate::dictionary::frequency_ranked;
use crate::dictionary::sort_by_frequency;
use crate::fmap::groups;
use crate::fmap::max_bucket;
use crate::fmap::potency;
use crate::fmap::total;
use crate::fmap::FeedbackMap;
use crate::play::grade_many;
use crate::play::GradeStrategy;
use crate::word::letter_ord;
use crate::word::word_contains;
use crate::word::Letter;
use crate::word::Word;

verus! {

broadcast use vstd::seq_lib::group_to_multiset_ensures, vstd::array::group_array_axioms;

/// The unrecoverable error of the tracker: a required letter is left
/// with no possible slot, so the feedback received cannot describe any
/// real word.
#[derive(Clone, Copy, PartialEq, Eq, Structural, Debug)]
pub struct Contradiction;

/// The mathematical state of a `Guesser`: the working candidate list and
/// the accumulated per-letter knowledge.
pub struct GState {
    /// Words still consistent with all feedback received.
    pub candidates: Seq<Word>,
    /// Letters proven absent, sorted by ordinal.
    pub excluded: Seq<Letter>,
    /// Letters proven present but not yet placed, each with the set of
    /// slots it is known not to occupy; sorted by letter ordinal.
    pub required: Seq<(Letter, Positions)>,
    /// Five slots, each optionally holding the letter known to occupy it.
    pub confirmed: Seq<Option<Letter>>,
}

/// Structural well-formedness of a tracker state.
pub open spec fn state_wf(s: GState) -> bool {
    &&& s.confirmed.len() == 5
    &&& forall|a: int, b: int|
        0 <= a < b < s.excluded.len() ==> letter_ord(#[trigger] s.excluded[a]) < letter_ord(
            #[trigger] s.excluded[b],
        )
    &&& forall|a: int, b: int|
        0 <= a < b < s.required.len() ==> letter_ord(#[trigger] s.required[a].0) < letter_ord(
            #[trigger] s.required[b].0,
        )
    &&& forall|k: int| 0 <= k < s.required.len() ==> pos_wf(#[trigger] s.required[k].1)
}

/// Whether slot `i` is still possible for a required letter `ch` with
/// forbidden set `p`: not forbidden and not already confirmed to a
/// different letter.
pub open spec fn slot_open(s: GState, ch: Letter, p: Positions, i: int) -> bool {
    &&& 0 <= i < 5
    &&& !pos_contains(p, i)
    &&& !(s.confirmed[i] is Some && s.confirmed[i]->0 != ch)
}

/// How many of the first `k` slots are still possible.
pub open spec fn open_count_upto(s: GState, ch: Letter, p: Positions, k: int) -> int
    decreases k,
{
    if k <= 0 {
        0
    } else {
        open_count_upto(s, ch, p, k - 1) + if slot_open(s, ch, p, k - 1) {
            1int
        } else {
            0int
        }
    }
}

/// How many slots are still possible for a required letter.
pub open spec fn open_count(s: GState, ch: Letter, p: Positions) -> int {
    open_count_upto(s, ch, p, 5)
}

/// The lowest slot still possible (meaningful when any is).
pub open spec fn first_open_slot(s: GState, ch: Letter, p: Positions) -> int {
    if slot_open(s, ch, p, 0) {
        0
    } else if slot_open(s, ch, p, 1) {
        1
    } else if slot_open(s, ch, p, 2) {
        2
    } else if slot_open(s, ch, p, 3) {
        3
    } else {
        4
    }
}

/// Promotion of required entry `idx`: its letter is confirmed at its
/// only possible slot and leaves the required list.
pub open spec fn promote(s: GState, idx: int) -> GState {
    let ch = s.required[idx].0;
    let p = s.required[idx].1;
    let k = first_open_slot(s, ch, p);
    GState {
        candidates: s.candidates,
        excluded: s.excluded,
        required: s.required.remove(idx),
        confirmed: s.confirmed.update(k, Some(ch)),
    }
}

/// The pigeonhole step on required entry `idx`: zero possible slots is a
/// contradiction, exactly one possible slot promotes, more leave the
/// state unchanged.
pub open spec fn pigeon_step(s: GState, idx: int) -> Option<GState> {
    let ch = s.required[idx].0;
    let p = s.required[idx].1;
    if open_count(s, ch, p) == 0 {
        None
    } else if open_count(s, ch, p) == 1 {
        Some(promote(s, idx))
    } else {
        Some(s)
    }
}

/// The number of letters in `s` that sort before `ch`: the insertion
/// point keeping the excluded list sorted.
pub open spec fn lb_letters(s: Seq<Letter>, ch: Letter) -> int
    decreases s.len(),
{
    if s.len() == 0 {
        0
    } else if letter_ord(s[0]) >= letter_ord(ch) {
        0
    } else {
        1 + lb_letters(s.drop_first(), ch)
    }
}

/// The insertion point of `ch` in the required list.
pub open spec fn lb_required(s: Seq<(Letter, Positions)>, ch: Letter) -> int
    decreases s.len(),
{
    if s.len() == 0 {
        0
    } else if letter_ord(s[0].0) >= letter_ord(ch) {
        0
    } else {
        1 + lb_required(s.drop_first(), ch)
    }
}

/// The excluded list after recording `ch` as absent (idempotent sorted
/// insert).
pub open spec fn exclude_letter(ex: Seq<Letter>, ch: Letter) -> Seq<Letter> {
    let j = lb_letters(ex, ch);
    if j < ex.len() && ex[j] == ch {
        ex
    } else {
        ex.insert(j, ch)
    }
}

/// The required list after recording that `ch` is present but not at
/// slot `i`: the forbidden set of its entry grows by `i`, the entry
/// being created first if absent.
pub open spec fn require_at(req: Seq<(Letter, Positions)>, ch: Letter, i: int) -> Seq<
    (Letter, Positions),
> {
    let j = lb_required(req, ch);
    if j < req.len() && req[j].0 == ch {
        req.update(j, (ch, Positions { bits: req[j].1.bits | pos_bit(i) }))
    } else {
        req.insert(j, (ch, Positions { bits: pos_bit(i) }))
    }
}

/// The required list after dropping `ch`, if present.
pub open spec fn drop_required(req: Seq<(Letter, Positions)>, ch: Letter) -> Seq<
    (Letter, Positions),
> {
    let j = lb_required(req, ch);
    if j < req.len() && req[j].0 == ch {
        req.remove(j)
    } else {
        req
    }
}

/// One slot of feedback applied to the state.
pub open spec fn step_slot(s: GState, ch: Letter, stat: LetterFeedback, i: int) -> Option<GState> {
    match stat {
        LetterFeedback::Excluded => Some(
            GState { excluded: exclude_letter(s.excluded, ch), ..s },
        ),
        LetterFeedback::Required => {
            let s1 = GState { required: require_at(s.required, ch, i), ..s };
            pigeon_step(s1, lb_required(s.required, ch))
        },
        LetterFeedback::Confirmed => Some(
            GState {
                confirmed: s.confirmed.update(i, Some(ch)),
                required: drop_required(s.required, ch),
                ..s
            },
        ),
    }
}

/// The five feedback slots applied in order, starting at slot `k`.
pub open spec fn process_slots(s: GState, chars: Seq<(Letter, LetterFeedback)>, k: int) -> Option<
    GState,
>
    decreases 5 - k,
{
    if k < 0 || k >= 5 {
        Some(s)
    } else {
        match step_slot(s, chars[k].0, chars[k].1, k) {
            Option::None => None,
            Option::Some(s1) => process_slots(s1, chars, k + 1),
        }
    }
}

/// The first required entry at or after `k` with at most one possible
/// slot, or -1 when every remaining entry keeps two or more.
pub open spec fn first_low(s: GState, k: int) -> int
    decreases s.required.len() - k,
{
    if k < 0 || k >= s.required.len() {
        -1
    } else if open_count(s, s.required[k].0, s.required[k].1) <= 1 {
        k
    } else {
        first_low(s, k + 1)
    }
}

/// The pigeonhole fixpoint: promotions are replayed until every required
/// letter keeps at least two possible slots, or a letter with none
/// surfaces.
pub open spec fn drain(s: GState) -> Option<GState>
    decreases s.required.len(),
{
    let k = first_low(s, 0);
    if k == -1 {
        Some(s)
    } else if open_count(s, s.required[k].0, s.required[k].1) == 0 {
        None
    } else if 0 <= k < s.required.len() {
        drain(promote(s, k))
    } else {
        Some(s)
    }
}

/// Whether every slot of a feedback round is `Confirmed`.
pub open spec fn chars_all_confirmed(chars: Seq<(Letter, LetterFeedback)>) -> bool {
    forall|i: int| 0 <= i < 5 ==> #[trigger] chars[i].1 == LetterFeedback::Confirmed
}

/// Whether `w` spells the letters of a feedback round.
pub open spec fn matches_chars(w: Word, chars: Seq<(Letter, LetterFeedback)>) -> bool {
    forall|i: int| 0 <= i < 5 ==> #[trigger] w@[i] == chars[i].0
}

/// The first candidate spelling the guessed word, from index `k` on, or
/// -1 if none.
pub open spec fn first_match(cands: Seq<Word>, chars: Seq<(Letter, LetterFeedback)>, k: int) -> int
    decreases cands.len() - k,
{
    if k < 0 || k >= cands.len() {
        -1
    } else if matches_chars(cands[k], chars) {
        k
    } else {
        first_match(cands, chars, k + 1)
    }
}

/// The candidate list after dropping the guessed word, which has been
/// tried and was not the answer.  A word outside the list is tolerated.
pub open spec fn drop_guess(cands: Seq<Word>, chars: Seq<(Letter, LetterFeedback)>) -> Seq<Word> {
    let j = first_match(cands, chars, 0);
    if j == -1 {
        cands
    } else {
        cands.remove(j)
    }
}

/// The state at the start of a round: unless the round is a win, the
/// guessed word leaves the candidate list, having been tried already.
pub open spec fn analyze_s0(s: GState, chars: Seq<(Letter, LetterFeedback)>) -> GState {
    if chars_all_confirmed(chars) {
        s
    } else {
        GState { candidates: drop_guess(s.candidates, chars), ..s }
    }
}

/// One full round of feedback applied to the state: unless the round is
/// a win, the guessed word leaves the candidate list; each slot's
/// knowledge is recorded, pigeonhole deductions run to a fixpoint, and
/// `None` stands for the fatal contradiction.
pub open spec fn analyze_spec(s: GState, chars: Seq<(Letter, LetterFeedback)>) -> Option<GState> {
    match process_slots(analyze_s0(s, chars), chars, 0) {
        Option::None => None,
        Option::Some(s1) => drain(s1),
    }
}

/// The guessing engine: tracks constraints and candidates across the
/// turns of one game.
pub struct Guesser {
    candidates: Vec<Word>,
    /// Sorted by letter ordinal.
    excluded: Vec<Letter>,
    /// Sorted by letter ordinal.
    required: Vec<(Letter, Positions)>,
    /// Always exactly five slots.
    confirmed: Vec<Option<Letter>>,
}

impl View for Guesser {
    type V = GState;

    closed spec fn view(&self) -> GState {
        GState {
            candidates: self.candidates@,
            excluded: self.excluded@,
            required: self.required@,
            confirmed: self.confirmed@,
        }
    }
}

impl Guesser {
    /// A fresh game: no knowledge, every dictionary word a candidate.
    /// The buffer is recycled to avoid reallocation across games.
    pub fn new(dictionary: &Vec<Word>, candidates_buf: Vec<Word>) -> (r: Guesser)
        ensures
            state_wf(r@),
            r@.candidates == dictionary@,
            r@.excluded.len() == 0,
            r@.required.len() == 0,
            forall|i: int| 0 <= i < 5 ==> r@.confirmed[i] is None,
    {
        let mut candidates_buf = candidates_buf;
        candidates_buf.clear();
        let n = dictionary.len();
        let mut i: usize = 0;
        while i < n
            invariant
                n == dictionary@.len(),
                i <= n,
                candidates_buf@ == dictionary@.take(i as int),
            decreases n - i,
        {
            candidates_buf.push(dictionary[i]);
            proof {
                assert(candidates_buf@ =~= dictionary@.take(i + 1));
            }
            i += 1;
        }
        proof {
            assert(dictionary@.take(n as int) =~= dictionary@);
        }
        let mut confirmed: Vec<Option<Letter>> = Vec::new();
        confirmed.push(None);
        confirmed.push(None);
        confirmed.push(None);
        confirmed.push(None);
        confirmed.push(None);
        Guesser { candidates: candidates_buf, excluded: Vec::new(), required: Vec::new(), confirmed }
    }

    /// Hands the candidate buffer back for reuse in the next game.
    pub fn extract_resources(self) -> (r: Vec<Word>)
        ensures
            r@ == self@.candidates,
    {
        self.candidates
    }

    /// The current best suggestion: the top-ranked candidate, or none
    /// when the list is exhausted.
    pub fn guess(&self) -> (r: Option<Word>)
        ensures
            self@.candidates.len() > 0 ==> r == Some(self@.candidates[0]),
            self@.candidates.len() == 0 ==> r is None,
    {
        if self.candidates.len() > 0 {
            Some(self.candidates[0])
        } else {
            None
        }
    }

    /// The read-only ordered candidate list.
    pub fn candidates(&self) -> (r: &Vec<Word>)
        ensures
            r@ == self@.candidates,
    {
        &self.candidates
    }

    /// The solved word, once all five slots are confirmed.
    pub fn confirmed_word(&self) -> (r: Option<Word>)
        requires
            state_wf(self@),
        ensures
            r is Some <==> (forall|i: int| 0 <= i < 5 ==> self@.confirmed[i] is Some),
            r is Some ==> forall|i: int| 0 <= i < 5 ==> #[trigger] r->0@[i] == self@.confirmed[i]->0,
    {
        match (self.confirmed[0], self.confirmed[1], self.confirmed[2], self.confirmed[3], self
            .confirmed[4]) {
            (Some(a), Some(b), Some(c), Some(d), Some(e)) => {
                let w = Word([a, b, c, d, e]);
                assert forall|i: int| 0 <= i < 5 implies #[trigger] w@[i] == self@.confirmed[i]->0
                by {
                }
                Some(w)
            },
            _ => None,
        }
    }
}


/// Bounds and the defining properties of the insertion point in a
/// letter list.
proof fn lemma_lb_letters_props(s: Seq<Letter>, ch: Letter)
    ensures
        0 <= lb_letters(s, ch) <= s.len(),
        forall|j: int| 0 <= j < lb_letters(s, ch) ==> letter_ord(#[trigger] s[j]) < letter_ord(ch),
        lb_letters(s, ch) < s.len() ==> letter_ord(s[lb_letters(s, ch)]) >= letter_ord(ch),
    decreases s.len(),
{
    if s.len() > 0 && letter_ord(s[0]) < letter_ord(ch) {
        lemma_lb_letters_props(s.drop_first(), ch);
        let lb = lb_letters(s, ch);
        assert forall|j: int| 0 <= j < lb implies letter_ord(#[trigger] s[j]) < letter_ord(ch) by {
            if j > 0 {
                assert(s.drop_first()[j - 1] == s[j]);
            }
        }
        if lb < s.len() {
            assert(s.drop_first()[lb - 1] == s[lb]);
        }
    }
}

/// Any index with the defining properties is the insertion point.
proof fn lemma_lb_letters_is(s: Seq<Letter>, ch: Letter, r: int)
    requires
        0 <= r <= s.len(),
        forall|j: int| 0 <= j < r ==> letter_ord(#[trigger] s[j]) < letter_ord(ch),
        r < s.len() ==> letter_ord(s[r]) >= letter_ord(ch),
    ensures
        lb_letters(s, ch) == r,
    decreases s.len(),
{
    if s.len() == 0 {
    } else if letter_ord(s[0]) >= letter_ord(ch) {
        assert(r == 0);
    } else {
        assert(r >= 1);
        let t = s.drop_first();
        assert forall|j: int| 0 <= j < r - 1 implies letter_ord(#[trigger] t[j]) < letter_ord(ch)
        by {
            assert(t[j] == s[j + 1]);
        }
        if r - 1 < t.len() {
            assert(t[r - 1] == s[r]);
        }
        lemma_lb_letters_is(t, ch, r - 1);
    }
}

/// Bounds and the defining properties of the insertion point in the
/// required list.
proof fn lemma_lb_required_props(s: Seq<(Letter, Positions)>, ch: Letter)
    ensures
        0 <= lb_required(s, ch) <= s.len(),
        forall|j: int|
            0 <= j < lb_required(s, ch) ==> letter_ord(#[trigger] s[j].0) < letter_ord(ch),
        lb_required(s, ch) < s.len() ==> letter_ord(s[lb_required(s, ch)].0) >= letter_ord(ch),
    decreases s.len(),
{
    if s.len() > 0 && letter_ord(s[0].0) < letter_ord(ch) {
        lemma_lb_required_props(s.drop_first(), ch);
        let lb = lb_required(s, ch);
        assert forall|j: int| 0 <= j < lb implies letter_ord(#[trigger] s[j].0) < letter_ord(ch)
        by {
            if j > 0 {
                assert(s.drop_first()[j - 1] == s[j]);
            }
        }
        if lb < s.len() {
            assert(s.drop_first()[lb - 1] == s[lb]);
        }
    }
}

/// Any index with the defining properties is the insertion point.
proof fn lemma_lb_required_is(s: Seq<(Letter, Positions)>, ch: Letter, r: int)
    requires
        0 <= r <= s.len(),
        forall|j: int| 0 <= j < r ==> letter_ord(#[trigger] s[j].0) < letter_ord(ch),
        r < s.len() ==> letter_ord(s[r].0) >= letter_ord(ch),
    ensures
        lb_required(s, ch) == r,
    decreases s.len(),
{
    if s.len() == 0 {
    } else if letter_ord(s[0].0) >= letter_ord(ch) {
        assert(r == 0);
    } else {
        assert(r >= 1);
        let t = s.drop_first();
        assert forall|j: int| 0 <= j < r - 1 implies letter_ord(#[trigger] t[j].0) < letter_ord(ch)
        by {
            assert(t[j] == s[j + 1]);
        }
        if r - 1 < t.len() {
            assert(t[r - 1] == s[r]);
        }
        lemma_lb_required_is(t, ch, r - 1);
    }
}

/// Unfolds the possible-slot count over all five slots.
proof fn lemma_open_count_unfold(s: GState, ch: Letter, p: Positions)
    ensures
        open_count(s, ch, p) == (if slot_open(s, ch, p, 0) {
            1int
        } else {
            0int
        }) + (if slot_open(s, ch, p, 1) {
            1int
        } else {
            0int
        }) + (if slot_open(s, ch, p, 2) {
            1int
        } else {
            0int
        }) + (if slot_open(s, ch, p, 3) {
            1int
        } else {
            0int
        }) + (if slot_open(s, ch, p, 4) {
            1int
        } else {
            0int
        }),
{
    assert(open_count_upto(s, ch, p, 0) == 0);
    assert(open_count_upto(s, ch, p, 1) == open_count_upto(s, ch, p, 0) + if slot_open(s, ch, p, 0) {
        1int
    } else {
        0int
    });
    assert(open_count_upto(s, ch, p, 2) == open_count_upto(s, ch, p, 1) + if slot_open(s, ch, p, 1) {
        1int
    } else {
        0int
    });
    assert(open_count_upto(s, ch, p, 3) == open_count_upto(s, ch, p, 2) + if slot_open(s, ch, p, 2) {
        1int
    } else {
        0int
    });
    assert(open_count_upto(s, ch, p, 4) == open_count_upto(s, ch, p, 3) + if slot_open(s, ch, p, 3) {
        1int
    } else {
        0int
    });
    assert(open_count_upto(s, ch, p, 5) == open_count_upto(s, ch, p, 4) + if slot_open(s, ch, p, 4) {
        1int
    } else {
        0int
    });
}

/// A slot that is open contributes to the count; with a count of one it
/// is the only open slot and the first.
pub proof fn lemma_open_count_facts(s: GState, ch: Letter, p: Positions, t: int)
    requires
        slot_open(s, ch, p, t),
    ensures
        open_count(s, ch, p) >= 1,
        open_count(s, ch, p) == 1 ==> t == first_open_slot(s, ch, p),
        open_count(s, ch, p) == 1 ==> forall|u: int| slot_open(s, ch, p, u) ==> u == t,
{
    lemma_open_count_unfold(s, ch, p);
}

/// Skipping entries that keep two or more open slots does not move the
/// first low entry.
proof fn lemma_first_low_skip(s: GState, a: int)
    requires
        0 <= a <= s.required.len(),
        forall|j: int|
            0 <= j < a ==> open_count(s, (#[trigger] s.required[j]).0, s.required[j].1) >= 2,
    ensures
        first_low(s, 0) == first_low(s, a),
    decreases a,
{
    if a > 0 {
        lemma_first_low_skip(s, a - 1);
        assert(first_low(s, a - 1) == first_low(s, a));
    }
}

enum PigeonOutcome {
    Fatal,
    Promoted,
    Stable,
}

impl Guesser {
    /// Counts the slots still possible for a required letter, and finds
    /// the lowest one.
    fn count_open(&self, ch: Letter, p: Positions) -> (r: (usize, usize))
        requires
            state_wf(self@),
        ensures
            r.0 == open_count(self@, ch, p),
            r.0 > 0 ==> r.1 == first_open_slot(self@, ch, p) && slot_open(
                self@,
                ch,
                p,
                r.1 as int,
            ),
    {
        let mut cnt: usize = 0;
        let mut first: usize = 5;
        let mut i: usize = 0;
        while i < 5
            invariant
                state_wf(self@),
                i <= 5,
                cnt <= i,
                cnt == open_count_upto(self@, ch, p, i as int),
                cnt > 0 ==> first < i && slot_open(self@, ch, p, first as int) && (forall|j: int|
                    0 <= j < first ==> !slot_open(self@, ch, p, j)),
                cnt == 0 ==> forall|j: int| 0 <= j < i ==> !slot_open(self@, ch, p, j),
            decreases 5 - i,
        {
            let blocked = match self.confirmed_at(i) {
                Option::Some(c) => !letter_eq(c, ch),
                Option::None => false,
            };
            let open = !p.contains(i) && !blocked;
            proof {
                assert(open == slot_open(self@, ch, p, i as int));
            }
            if open {
                if cnt == 0 {
                    first = i;
                }
                cnt += 1;
            }
            i += 1;
        }
        proof {
            if cnt > 0 {
                assert(first_open_slot(self@, ch, p) == first as int);
            }
        }
        (cnt, first)
    }

    /// One confirmed slot, read out.
    pub fn confirmed_at(&self, i: usize) -> (r: Option<Letter>)
        requires
            state_wf(self@),
            i < 5,
        ensures
            r == self@.confirmed[i as int],
    {
        self.confirmed[i]
    }

    /// The pigeonhole deduction on required entry `idx`: with a single
    /// possible slot left the letter is confirmed there; with none the
    /// feedback is contradictory.
    fn pidgeon(&mut self, idx: usize) -> (r: PigeonOutcome)
        requires
            state_wf(old(self)@),
            idx < old(self)@.required.len(),
        ensures
            state_wf(final(self)@),
            r is Fatal <==> pigeon_step(old(self)@, idx as int) is None,
            r is Fatal ==> final(self)@ == old(self)@,
            r is Promoted <==> (pigeon_step(old(self)@, idx as int) is Some && open_count(
                old(self)@,
                old(self)@.required[idx as int].0,
                old(self)@.required[idx as int].1,
            ) == 1),
            r is Promoted ==> final(self)@ == promote(old(self)@, idx as int),
            r is Stable <==> (pigeon_step(old(self)@, idx as int) is Some && open_count(
                old(self)@,
                old(self)@.required[idx as int].0,
                old(self)@.required[idx as int].1,
            ) >= 2),
            r is Stable ==> final(self)@ == old(self)@,
            pigeon_step(old(self)@, idx as int) is Some ==> final(self)@ == pigeon_step(
                old(self)@,
                idx as int,
            )->0,
    {
        let (ch, p) = self.required[idx];
        let (cnt, first) = self.count_open(ch, p);
        proof {
            lemma_open_count_unfold(self@, ch, p);
        }
        if cnt == 0 {
            PigeonOutcome::Fatal
        } else if cnt == 1 {
            self.confirmed.set(first, Some(ch));
            let _ = self.required.remove(idx);
            proof {
                let o = old(self)@;
                assert(self@.required =~= o.required.remove(idx as int));
                assert(self@.confirmed =~= o.confirmed.update(
                    first_open_slot(o, ch, p),
                    Some(ch),
                ));
                assert(self@ == promote(o, idx as int));
                assert forall|a: int, b: int|
                    0 <= a < b < self@.required.len() implies letter_ord(
                    #[trigger] self@.required[a].0,
                ) < letter_ord(#[trigger] self@.required[b].0) by {
                    if b < idx {
                        assert(self@.required[a] == o.required[a]);
                        assert(self@.required[b] == o.required[b]);
                    } else if a < idx {
                        assert(self@.required[a] == o.required[a]);
                        assert(self@.required[b] == o.required[b + 1]);
                    } else {
                        assert(self@.required[a] == o.required[a + 1]);
                        assert(self@.required[b] == o.required[b + 1]);
                    }
                }
                assert forall|k: int| 0 <= k < self@.required.len() implies pos_wf(
                    #[trigger] self@.required[k].1,
                ) by {
                    if k < idx {
                        assert(self@.required[k] == o.required[k]);
                    } else {
                        assert(self@.required[k] == o.required[k + 1]);
                    }
                }
            }
            PigeonOutcome::Promoted
        } else {
            PigeonOutcome::Stable
        }
    }
}


/// Sorted insertion of an absent letter keeps the excluded list sorted,
/// and grows it by nothing but that letter.
proof fn lemma_exclude_letter_props(ex: Seq<Letter>, ch: Letter)
    requires
        forall|a: int, b: int|
            0 <= a < b < ex.len() ==> letter_ord(#[trigger] ex[a]) < letter_ord(#[trigger] ex[b]),
    ensures
        forall|a: int, b: int|
            0 <= a < b < exclude_letter(ex, ch).len() ==> letter_ord(
                #[trigger] exclude_letter(ex, ch)[a],
            ) < letter_ord(#[trigger] exclude_letter(ex, ch)[b]),
        forall|k: int|
            0 <= k < exclude_letter(ex, ch).len() ==> (#[trigger] exclude_letter(ex, ch)[k] == ch
                || ex.contains(exclude_letter(ex, ch)[k])),
        exclude_letter(ex, ch).contains(ch),
        forall|x: Letter| ex.contains(x) ==> exclude_letter(ex, ch).contains(x),
{
    crate::word::lemma_letter_ord_bijective();
    lemma_lb_letters_props(ex, ch);
    let j = lb_letters(ex, ch);
    let r = exclude_letter(ex, ch);
    if j < ex.len() && ex[j] == ch {
        assert(r == ex);
        assert(r.contains(ch)) by {
            assert(r[j] == ch);
        }
        assert forall|k: int| 0 <= k < r.len() implies (#[trigger] r[k] == ch || ex.contains(r[k]))
        by {
            assert(ex[k] == r[k]);
        }
    } else {
        assert(r == ex.insert(j, ch));
        assert(r.contains(ch)) by {
            assert(r[j] == ch);
        }
        assert forall|a: int, b: int| 0 <= a < b < r.len() implies letter_ord(#[trigger] r[a])
            < letter_ord(#[trigger] r[b]) by {
            if b < j {
                assert(r[a] == ex[a] && r[b] == ex[b]);
            } else if a > j {
                assert(r[a] == ex[a - 1] && r[b] == ex[b - 1]);
            } else if a == j {
                assert(r[a] == ch && r[b] == ex[b - 1]);
                assert(letter_ord(ex[j]) >= letter_ord(ch));
                assert(ex[j] != ch);
            } else if b == j {
                assert(r[a] == ex[a] && r[b] == ch);
            } else {
                assert(r[a] == ex[a] && r[b] == ex[b - 1]);
                if j < ex.len() {
                    assert(ex[j] != ch);
                    assert(letter_ord(ex[b - 1]) >= letter_ord(ex[j]));
                }
            }
        }
        assert forall|k: int| 0 <= k < r.len() implies (#[trigger] r[k] == ch || ex.contains(r[k]))
        by {
            if k < j {
                assert(r[k] == ex[k]);
            } else if k > j {
                assert(r[k] == ex[k - 1]);
            }
        }
        assert forall|x: Letter| ex.contains(x) implies r.contains(x) by {
            let k = choose|k: int| 0 <= k < ex.len() && ex[k] == x;
            if k < j {
                assert(r[k] == x);
            } else {
                assert(r[k + 1] == x);
            }
        }
    }
}

/// Recording a forbidden position keeps the required list sorted and
/// well formed; the entry of the letter gains exactly that position and
/// every other entry is carried over unchanged.
proof fn lemma_require_at_props(req: Seq<(Letter, Positions)>, ch: Letter, i: int)
    requires
        0 <= i < 5,
        forall|a: int, b: int|
            0 <= a < b < req.len() ==> letter_ord(#[trigger] req[a].0) < letter_ord(
                #[trigger] req[b].0,
            ),
        forall|k: int| 0 <= k < req.len() ==> pos_wf(#[trigger] req[k].1),
    ensures
        forall|a: int, b: int|
            0 <= a < b < require_at(req, ch, i).len() ==> letter_ord(
                #[trigger] require_at(req, ch, i)[a].0,
            ) < letter_ord(#[trigger] require_at(req, ch, i)[b].0),
        forall|k: int| 0 <= k < require_at(req, ch, i).len() ==> pos_wf(
            #[trigger] require_at(req, ch, i)[k].1,
        ),
        require_at(req, ch, i)[lb_required(req, ch)].0 == ch,
        0 <= lb_required(req, ch) < require_at(req, ch, i).len(),
        forall|x: int|
            #[trigger] pos_contains(require_at(req, ch, i)[lb_required(req, ch)].1, x) <==> ((
            lb_required(req, ch) < req.len() && req[lb_required(req, ch)].0 == ch && pos_contains(
                req[lb_required(req, ch)].1,
                x,
            )) || x == i),
        forall|k: int|
            0 <= k < require_at(req, ch, i).len() && k != lb_required(req, ch)
                ==> req.contains(#[trigger] require_at(req, ch, i)[k]),
{
    crate::word::lemma_letter_ord_bijective();
    lemma_lb_required_props(req, ch);
    let j = lb_required(req, ch);
    let r = require_at(req, ch, i);
    if j < req.len() && req[j].0 == ch {
        let old_bits = req[j].1.bits;
        let new_bits = old_bits | pos_bit(i);
        assert(r == req.update(j, (ch, Positions { bits: new_bits })));
        assert(pos_wf(Positions { bits: new_bits }) && forall|x: int|
            pos_contains(Positions { bits: new_bits }, x) <==> (pos_contains(
                Positions { bits: old_bits },
                x,
            ) || x == i)) by {
            lemma_pos_require(old_bits, i);
        }
        assert forall|k: int| 0 <= k < r.len() && k != j implies req.contains(#[trigger] r[k]) by {
            assert(r[k] == req[k]);
        }
    } else {
        assert(r == req.insert(j, (ch, Positions { bits: pos_bit(i) })));
        assert(pos_wf(Positions { bits: pos_bit(i) }) && forall|x: int|
            pos_contains(Positions { bits: pos_bit(i) }, x) <==> x == i) by {
            lemma_pos_require_fresh(i);
        }
        assert forall|a: int, b: int| 0 <= a < b < r.len() implies letter_ord(#[trigger] r[a].0)
            < letter_ord(#[trigger] r[b].0) by {
            if b < j {
                assert(r[a] == req[a] && r[b] == req[b]);
            } else if a > j {
                assert(r[a] == req[a - 1] && r[b] == req[b - 1]);
            } else if a == j {
                assert(r[a].0 == ch && r[b] == req[b - 1]);
                assert(letter_ord(req[j].0) >= letter_ord(ch));
                assert(req[j].0 != ch);
            } else if b == j {
                assert(r[a] == req[a] && r[b].0 == ch);
            } else {
                assert(r[a] == req[a] && r[b] == req[b - 1]);
                if j < req.len() {
                    assert(req[j].0 != ch);
                    assert(letter_ord(req[b - 1].0) >= letter_ord(req[j].0));
                }
            }
        }
        assert forall|k: int| 0 <= k < r.len() && k != j implies req.contains(#[trigger] r[k]) by {
            if k < j {
                assert(r[k] == req[k]);
            } else {
                assert(r[k] == req[k - 1]);
            }
        }
        assert forall|k: int| 0 <= k < r.len() implies pos_wf(#[trigger] r[k].1) by {
            if k < j {
                assert(r[k] == req[k]);
            } else if k > j {
                assert(r[k] == req[k - 1]);
            }
        }
    }
}

/// Growing a well-formed forbidden set by one slot.
proof fn lemma_pos_require(old_bits: u8, i: int)
    requires
        old_bits < 32,
        0 <= i < 5,
    ensures
        pos_wf(Positions { bits: old_bits | pos_bit(i) }),
        forall|x: int|
            pos_contains(Positions { bits: old_bits | pos_bit(i) }, x) <==> (pos_contains(
                Positions { bits: old_bits },
                x,
            ) || x == i),
{
    let m = pos_bit(i);
    assert(old_bits < 32 && (m == 1 || m == 2 || m == 4 || m == 8 || m == 16) ==> (old_bits | m)
        < 32) by (bit_vector);
    assert forall|x: int|
        pos_contains(Positions { bits: old_bits | m }, x) <==> (pos_contains(
            Positions { bits: old_bits },
            x,
        ) || x == i) by {
        crate::feedback::lemma_pos_or(old_bits, m, x);
        crate::feedback::lemma_pos_single(m, i, x);
    }
}

/// A fresh forbidden set holding one slot.
proof fn lemma_pos_require_fresh(i: int)
    requires
        0 <= i < 5,
    ensures
        pos_wf(Positions { bits: pos_bit(i) }),
        forall|x: int| pos_contains(Positions { bits: pos_bit(i) }, x) <==> x == i,
{
    assert forall|x: int| pos_contains(Positions { bits: pos_bit(i) }, x) <==> x == i by {
        crate::feedback::lemma_pos_single(pos_bit(i), i, x);
    }
}

/// Removing an entry keeps the required list sorted and well formed,
/// and introduces nothing new.
proof fn lemma_required_remove_props(req: Seq<(Letter, Positions)>, idx: int)
    requires
        0 <= idx < req.len(),
        forall|a: int, b: int|
            0 <= a < b < req.len() ==> letter_ord(#[trigger] req[a].0) < letter_ord(
                #[trigger] req[b].0,
            ),
        forall|k: int| 0 <= k < req.len() ==> pos_wf(#[trigger] req[k].1),
    ensures
        forall|a: int, b: int|
            0 <= a < b < req.remove(idx).len() ==> letter_ord(#[trigger] req.remove(idx)[a].0)
                < letter_ord(#[trigger] req.remove(idx)[b].0),
        forall|k: int| 0 <= k < req.remove(idx).len() ==> pos_wf(#[trigger] req.remove(idx)[k].1),
        forall|k: int| 0 <= k < req.remove(idx).len() ==> req.contains(#[trigger] req.remove(idx)[k]),
{
    let r = req.remove(idx);
    assert forall|a: int, b: int| 0 <= a < b < r.len() implies letter_ord(#[trigger] r[a].0)
        < letter_ord(#[trigger] r[b].0) by {
        if b < idx {
            assert(r[a] == req[a] && r[b] == req[b]);
        } else if a < idx {
            assert(r[a] == req[a] && r[b] == req[b + 1]);
        } else {
            assert(r[a] == req[a + 1] && r[b] == req[b + 1]);
        }
    }
    assert forall|k: int| 0 <= k < r.len() implies pos_wf(#[trigger] r[k].1) && req.contains(r[k])
    by {
        if k < idx {
            assert(r[k] == req[k]);
        } else {
            assert(r[k] == req[k + 1]);
        }
    }
}

/// Skipping non-matching candidates does not move the first match.
proof fn lemma_first_match_skip(cands: Seq<Word>, chars: Seq<(Letter, LetterFeedback)>, a: int)
    requires
        0 <= a <= cands.len(),
        forall|j: int| 0 <= j < a ==> !matches_chars(#[trigger] cands[j], chars),
    ensures
        first_match(cands, chars, 0) == first_match(cands, chars, a),
    decreases a,
{
    if a > 0 {
        lemma_first_match_skip(cands, chars, a - 1);
        assert(first_match(cands, chars, a - 1) == first_match(cands, chars, a));
    }
}

/// The insertion-point scan over the excluded list.
fn find_lb_letters(v: &Vec<Letter>, ch: Letter) -> (r: usize)
    ensures
        r == lb_letters(v@, ch),
        r <= v@.len(),
{
    let n = v.len();
    let mut i: usize = 0;
    while i < n && v[i].index() < ch.index()
        invariant
            n == v@.len(),
            i <= n,
            forall|j: int| 0 <= j < i ==> letter_ord(#[trigger] v@[j]) < letter_ord(ch),
        decreases n - i,
    {
        i += 1;
    }
    proof {
        lemma_lb_letters_is(v@, ch, i as int);
    }
    i
}

/// The insertion-point scan over the required list.
fn find_lb_required(v: &Vec<(Letter, Positions)>, ch: Letter) -> (r: usize)
    ensures
        r == lb_required(v@, ch),
        r <= v@.len(),
{
    let n = v.len();
    let mut i: usize = 0;
    while i < n && v[i].0.index() < ch.index()
        invariant
            n == v@.len(),
            i <= n,
            forall|j: int| 0 <= j < i ==> letter_ord(#[trigger] v@[j].0) < letter_ord(ch),
        decreases n - i,
    {
        i += 1;
    }
    proof {
        lemma_lb_required_is(v@, ch, i as int);
    }
    i
}


impl Guesser {
    /// One round of feedback: unless the round is a win, the guessed
    /// word leaves the candidate list; each slot's knowledge is
    /// recorded; pigeonhole deductions run to a fixpoint.  `Err` is the
    /// fatal contradiction: some required letter was left with no
    /// possible slot, so the feedback cannot describe any real word.
    #[verifier::loop_isolation(false)]
    #[verifier::rlimit(100)]
    pub fn analyze(&mut self, chars: [(Letter, LetterFeedback); 5]) -> (r: Result<
        (),
        Contradiction,
    >)
        requires
            state_wf(old(self)@),
        ensures
            state_wf(final(self)@),
            r is Ok <==> analyze_spec(old(self)@, chars@) is Some,
            r is Ok ==> final(self)@ == analyze_spec(old(self)@, chars@)->0,
            r is Ok ==> forall|k: int|
                0 <= k < final(self)@.required.len() ==> open_count(
                    final(self)@,
                    (#[trigger] final(self)@.required[k]).0,
                    final(self)@.required[k].1,
                ) >= 2,
            r is Ok ==> confirmed_monotone(old(self)@, final(self)@),
            r is Ok ==> confirmed_count(final(self)@) >= confirmed_count(old(self)@),
            final(self)@.candidates == analyze_s0(old(self)@, chars@).candidates,
    {
        let all_conf = matches!(chars[0].1, LetterFeedback::Confirmed) && matches!(
            chars[1].1,
            LetterFeedback::Confirmed,
        ) && matches!(chars[2].1, LetterFeedback::Confirmed) && matches!(
            chars[3].1,
            LetterFeedback::Confirmed,
        ) && matches!(chars[4].1, LetterFeedback::Confirmed);
        proof {
            assert(all_conf == chars_all_confirmed(chars@)) by {
                if all_conf {
                    assert forall|i: int| 0 <= i < 5 implies #[trigger] chars@[i].1
                        == LetterFeedback::Confirmed by {
                        if i == 0 {
                        } else if i == 1 {
                        } else if i == 2 {
                        } else if i == 3 {
                        } else {
                        }
                    }
                }
            }
        }
        if !all_conf {
            let word_used = Word([chars[0].0, chars[1].0, chars[2].0, chars[3].0, chars[4].0]);
            proof {
                assert(word_used@[0] == chars@[0].0 && word_used@[1] == chars@[1].0 && word_used@[2]
                    == chars@[2].0 && word_used@[3] == chars@[3].0 && word_used@[4] == chars@[4].0);
                assert forall|w: Word| true implies ((w == word_used) <==> matches_chars(
                    w,
                    chars@,
                )) by {
                    if matches_chars(w, chars@) {
                        assert(w@[0] == chars@[0].0 && w@[1] == chars@[1].0 && w@[2] == chars@[2].0
                            && w@[3] == chars@[3].0 && w@[4] == chars@[4].0);
                        assert(w.0 =~= word_used.0);
                    }
                }
            }
            let n = self.candidates.len();
            let mut i: usize = 0;
            let mut found: usize = n;
            while i < n
                invariant
                    i <= n,
                    found == n || (found < i && matches_chars(
                        self@.candidates[found as int],
                        chars@,
                    )),
                    found == n ==> forall|j: int|
                        0 <= j < i ==> !matches_chars(#[trigger] self@.candidates[j], chars@),
                    found < n ==> forall|j: int|
                        0 <= j < found ==> !matches_chars(#[trigger] self@.candidates[j], chars@),
                decreases n - i,
            {
                if found == n && word_eq(&self.candidates[i], &word_used) {
                    found = i;
                }
                i += 1;
            }
            proof {
                if found == n {
                    lemma_first_match_skip(self@.candidates, chars@, n as int);
                    assert(first_match(self@.candidates, chars@, 0) == -1);
                } else {
                    lemma_first_match_skip(self@.candidates, chars@, found as int);
                    assert(first_match(self@.candidates, chars@, found as int) == found);
                }
            }
            if found < n {
                let _ = self.candidates.remove(found);
            }
            proof {
                assert(self@.candidates == drop_guess(old(self)@.candidates, chars@));
                assert(self@ == analyze_s0(old(self)@, chars@));
            }
        }
        let ghost s0 = self@;
        proof {
            assert(s0 == analyze_s0(old(self)@, chars@));
        }
        let mut i: usize = 0;
        while i < 5
            invariant
                state_wf(self@),
                i <= 5,
                self@.candidates == s0.candidates,
                process_slots(s0, chars@, 0) == process_slots(self@, chars@, i as int),
            decreases 5 - i,
        {
            let (ch, stat) = chars[i];
            let ghost cur = self@;
            proof {
                assert(chars@[i as int].0 == ch && chars@[i as int].1 == stat);
            }
            match stat {
                LetterFeedback::Excluded => {
                    let j = find_lb_letters(&self.excluded, ch);
                    let present = j < self.excluded.len() && letter_eq(self.excluded[j], ch);
                    if !present {
                        self.excluded.insert(j, ch);
                    }
                    proof {
                        assert(self@.excluded == exclude_letter(cur.excluded, ch));
                        assert(step_slot(cur, ch, stat, i as int) == Some(self@));
                        lemma_exclude_letter_props(cur.excluded, ch);
                    }
                },
                LetterFeedback::Required => {
                    let j = find_lb_required(&self.required, ch);
                    let present = j < self.required.len() && letter_eq(self.required[j].0, ch);
                    if present {
                        let (_c0, p0) = self.required[j];
                        let mut p1 = p0;
                        p1.insert(i);
                        self.required.set(j, (ch, p1));
                        proof {
                            assert(self@.required =~= require_at(cur.required, ch, i as int));
                        }
                    } else {
                        let mut p1 = Positions::empty();
                        p1.insert(i);
                        proof {
                            let ghost b = pos_bit(i as int);
                            assert(0u8 | b == b) by (bit_vector);
                            assert(p1 == Positions { bits: pos_bit(i as int) });
                        }
                        self.required.insert(j, (ch, p1));
                        proof {
                            assert(self@.required =~= require_at(cur.required, ch, i as int));
                        }
                    }
                    proof {
                        lemma_require_at_props(cur.required, ch, i as int);
                        assert(state_wf(self@));
                    }
                    let ghost s_mid = self@;
                    match self.pidgeon(j) {
                        PigeonOutcome::Fatal => {
                            proof {
                                assert(pigeon_step(s_mid, j as int) is None);
                                assert(step_slot(cur, ch, stat, i as int) is None);
                                assert(process_slots(cur, chars@, i as int) is None);
                                assert(process_slots(s0, chars@, 0) is None);
                                assert(analyze_spec(old(self)@, chars@) is None);
                            }
                            return Err(Contradiction);
                        },
                        _ => {
                            proof {
                                assert(pigeon_step(s_mid, j as int) is Some);
                                assert(self@ == pigeon_step(s_mid, j as int)->0);
                                assert(step_slot(cur, ch, stat, i as int) == Some(self@));
                            }
                        },
                    }
                },
                LetterFeedback::Confirmed => {
                    self.confirmed.set(i, Some(ch));
                    let j = find_lb_required(&self.required, ch);
                    let present = j < self.required.len() && letter_eq(self.required[j].0, ch);
                    if present {
                        let _ = self.required.remove(j);
                        proof {
                            lemma_required_remove_props(cur.required, j as int);
                        }
                    }
                    proof {
                        assert(self@.required == drop_required(cur.required, ch));
                        assert(self@.confirmed == cur.confirmed.update(i as int, Some(ch)));
                        assert(step_slot(cur, ch, stat, i as int) == Some(self@));
                    }
                },
            }
            i += 1;
        }
        let ghost s1 = self@;
        proof {
            assert(process_slots(s0, chars@, 0) == Some(s1));
        }
        let mut done = false;
        while !done
            invariant
                state_wf(self@),
                self@.candidates == s0.candidates,
                !done ==> drain(self@) == drain(s1),
                done ==> drain(s1) == Some(self@),
            decreases self@.required.len() + if done {
                0int
            } else {
                1int
            },
        {
            let ghost cur = self@;
            let len = self.required.len();
            let mut k: usize = 0;
            let mut low_found = false;
            let mut low_cnt: usize = 0;
            while k < len && !low_found
                invariant
                    k <= len,
                    self@ == cur,
                    !low_found ==> forall|j: int|
                        0 <= j < k ==> open_count(
                            self@,
                            (#[trigger] self@.required[j]).0,
                            self@.required[j].1,
                        ) >= 2,
                    low_found ==> k < len && open_count(
                        self@,
                        self@.required[k as int].0,
                        self@.required[k as int].1,
                    ) == low_cnt && low_cnt <= 1 && forall|j: int|
                        0 <= j < k ==> open_count(
                            self@,
                            (#[trigger] self@.required[j]).0,
                            self@.required[j].1,
                        ) >= 2,
                decreases len - k + if low_found {
                    0int
                } else {
                    1int
                },
            {
                let (ch, p) = self.required[k];
                let (cnt, _first) = self.count_open(ch, p);
                if cnt <= 1 {
                    low_found = true;
                    low_cnt = cnt;
                } else {
                    k += 1;
                }
            }
            proof {
                lemma_first_low_skip(self@, k as int);
            }
            if !low_found {
                proof {
                    assert(k == len);
                    assert(first_low(self@, k as int) == -1);
                    assert(drain(self@) == Some(self@));
                }
                done = true;
                continue ;
            }
            proof {
                assert(first_low(self@, k as int) == k);
                assert(first_low(self@, 0) == k);
            }
            if low_cnt == 0 {
                proof {
                    assert(drain(self@) is None);
                    assert(drain(s1) is None);
                    assert(analyze_spec(old(self)@, chars@) is None);
                }
                return Err(Contradiction);
            }
            let outcome = self.pidgeon(k);
            proof {
                assert(outcome is Promoted);
                assert(self@ == promote(cur, k as int));
                assert(drain(cur) == drain(self@));
                assert(self@.required.len() < cur.required.len());
            }
        }
        proof {
            assert(analyze_spec(old(self)@, chars@) == Some(self@));
            lemma_drain_fixpoint(s1);
            lemma_analyze_confirmed_monotone(old(self)@, chars@);
        }
        Ok(())
    }
}

/// Whether two words spell the same letters.
fn word_eq(a: &Word, b: &Word) -> (r: bool)
    ensures
        r == (*a == *b),
{
    a == b
}


/// The number of confirmed slots.
pub open spec fn confirmed_count(s: GState) -> int {
    (if s.confirmed[0] is Some {
        1int
    } else {
        0int
    }) + (if s.confirmed[1] is Some {
        1int
    } else {
        0int
    }) + (if s.confirmed[2] is Some {
        1int
    } else {
        0int
    }) + (if s.confirmed[3] is Some {
        1int
    } else {
        0int
    }) + (if s.confirmed[4] is Some {
        1int
    } else {
        0int
    })
}

/// A slot once confirmed stays confirmed.
pub open spec fn confirmed_monotone(a: GState, b: GState) -> bool {
    forall|i: int| 0 <= i < 5 && a.confirmed[i] is Some ==> (#[trigger] b.confirmed[i]) is Some
}

/// Past the last low entry, every required letter keeps two or more
/// possible slots.
proof fn lemma_first_low_none(s: GState, j: int)
    requires
        first_low(s, j) == -1,
        0 <= j,
    ensures
        forall|k: int|
            j <= k < s.required.len() ==> open_count(
                s,
                (#[trigger] s.required[k]).0,
                s.required[k].1,
            ) >= 2,
    decreases s.required.len() - j,
{
    if j < s.required.len() {
        lemma_first_low_none(s, j + 1);
    }
}

/// The pigeonhole fixpoint: after a successful drain no required letter
/// has fewer than two possible slots left — one with exactly one
/// possible slot is always promoted to `confirmed` at that slot, and
/// one with none is a contradiction.
pub proof fn lemma_drain_fixpoint(s: GState)
    requires
        drain(s) is Some,
        s.confirmed.len() == 5,
    ensures
        forall|k: int|
            0 <= k < drain(s)->0.required.len() ==> open_count(
                drain(s)->0,
                (#[trigger] drain(s)->0.required[k]).0,
                drain(s)->0.required[k].1,
            ) >= 2,
        confirmed_monotone(s, drain(s)->0),
        confirmed_count(drain(s)->0) >= confirmed_count(s),
        drain(s)->0.confirmed.len() == 5,
        drain(s)->0.candidates == s.candidates,
        drain(s)->0.excluded == s.excluded,
    decreases s.required.len(),
{
    let k = first_low(s, 0);
    if k == -1 {
        lemma_first_low_none(s, 0);
        assert(confirmed_monotone(s, s));
    } else if open_count(s, s.required[k].0, s.required[k].1) == 0 {
    } else {
        lemma_first_low_in_range(s, 0);
        let m = promote(s, k);
        assert(confirmed_monotone(s, m)) by {
            assert forall|i: int| 0 <= i < 5 && s.confirmed[i] is Some implies (
            #[trigger] m.confirmed[i]) is Some by {
                if i == first_open_slot(s, s.required[k].0, s.required[k].1) {
                } else {
                }
            }
        }
        lemma_drain_fixpoint(m);
        let f = drain(s)->0;
        assert(confirmed_monotone(s, f)) by {
            assert forall|i: int| 0 <= i < 5 && s.confirmed[i] is Some implies (
            #[trigger] f.confirmed[i]) is Some by {
                assert(m.confirmed[i] is Some);
            }
        }
    }
}

/// A non-negative first low entry indexes the required list.
proof fn lemma_first_low_in_range(s: GState, j: int)
    requires
        0 <= j,
        first_low(s, j) != -1,
    ensures
        j <= first_low(s, j) < s.required.len(),
        open_count(
            s,
            s.required[first_low(s, j)].0,
            s.required[first_low(s, j)].1,
        ) <= 1,
    decreases s.required.len() - j,
{
    if j < s.required.len() {
        if open_count(s, s.required[j].0, s.required[j].1) <= 1 {
        } else {
            lemma_first_low_in_range(s, j + 1);
        }
    }
}

/// One feedback slot never clears a confirmed slot.
proof fn lemma_step_slot_monotone(s: GState, ch: Letter, stat: LetterFeedback, i: int)
    requires
        step_slot(s, ch, stat, i) is Some,
        s.confirmed.len() == 5,
        0 <= i < 5,
    ensures
        confirmed_monotone(s, step_slot(s, ch, stat, i)->0),
        confirmed_count(step_slot(s, ch, stat, i)->0) >= confirmed_count(s),
        step_slot(s, ch, stat, i)->0.confirmed.len() == 5,
{
    let f = step_slot(s, ch, stat, i)->0;
    match stat {
        LetterFeedback::Excluded => {
            assert(f.confirmed == s.confirmed);
        },
        LetterFeedback::Required => {
            let s1 = GState { required: require_at(s.required, ch, i), ..s };
            let j = lb_required(s.required, ch);
            if open_count(s1, s1.required[j].0, s1.required[j].1) == 1 {
                assert(f == promote(s1, j));
                assert forall|x: int| 0 <= x < 5 && s.confirmed[x] is Some implies (
                #[trigger] f.confirmed[x]) is Some by {
                }
            } else {
                assert(f.confirmed == s.confirmed);
            }
        },
        LetterFeedback::Confirmed => {
            assert(f.confirmed == s.confirmed.update(i, Some(ch)));
            assert forall|x: int| 0 <= x < 5 && s.confirmed[x] is Some implies (
            #[trigger] f.confirmed[x]) is Some by {
            }
        },
    }
}

/// Slot processing never clears a confirmed slot.
proof fn lemma_process_slots_monotone(s: GState, chars: Seq<(Letter, LetterFeedback)>, k: int)
    requires
        process_slots(s, chars, k) is Some,
        s.confirmed.len() == 5,
    ensures
        confirmed_monotone(s, process_slots(s, chars, k)->0),
        confirmed_count(process_slots(s, chars, k)->0) >= confirmed_count(s),
        process_slots(s, chars, k)->0.confirmed.len() == 5,
    decreases 5 - k,
{
    if 0 <= k < 5 {
        let s1 = step_slot(s, chars[k].0, chars[k].1, k)->0;
        lemma_step_slot_monotone(s, chars[k].0, chars[k].1, k);
        lemma_process_slots_monotone(s1, chars, k + 1);
        let f = process_slots(s, chars, k)->0;
        assert forall|i: int| 0 <= i < 5 && s.confirmed[i] is Some implies (
        #[trigger] f.confirmed[i]) is Some by {
            assert(s1.confirmed[i] is Some);
        }
    }
}

/// Monotonic confirmation: across a successful round of feedback, a
/// confirmed slot stays confirmed and the count of confirmed slots
/// never decreases.
pub proof fn lemma_analyze_confirmed_monotone(s: GState, chars: Seq<(Letter, LetterFeedback)>)
    requires
        analyze_spec(s, chars) is Some,
        s.confirmed.len() == 5,
    ensures
        confirmed_monotone(s, analyze_spec(s, chars)->0),
        confirmed_count(analyze_spec(s, chars)->0) >= confirmed_count(s),
{
    let s0 = analyze_s0(s, chars);
    let s1 = process_slots(s0, chars, 0)->0;
    lemma_process_slots_monotone(s0, chars, 0);
    lemma_drain_fixpoint(s1);
    let f = analyze_spec(s, chars)->0;
    assert forall|i: int| 0 <= i < 5 && s.confirmed[i] is Some implies (#[trigger] f.confirmed[i]) is Some by {
        assert(s1.confirmed[i] is Some);
    }
}


/// Agreement of a tracker state with a fixed secret word: every
/// excluded letter is truly absent, every required letter is truly
/// present and truly absent from each of its forbidden positions, and
/// every confirmed slot truly holds its letter.  Honest feedback keeps
/// this invariant, which is why the secret is never pruned away.
pub open spec fn consistent(s: GState, secret: Word) -> bool {
    &&& forall|k: int| 0 <= k < s.excluded.len() ==> !word_contains(secret, #[trigger] s.excluded[k])
    &&& forall|k: int|
        0 <= k < s.required.len() ==> word_contains(secret, (#[trigger] s.required[k]).0)
    &&& forall|k: int, i: int|
        0 <= k < s.required.len() && #[trigger] pos_contains(s.required[k].1, i) ==> secret@[i]
            != s.required[k].0
    &&& forall|i: int|
        0 <= i < 5 && (#[trigger] s.confirmed[i]) is Some ==> secret@[i] == s.confirmed[i]->0
}

/// With a consistent state, a required letter always keeps an open slot
/// — the slot where the secret actually holds it — so the pigeonhole
/// step never hits a contradiction, and a promotion lands on a slot the
/// secret confirms.
proof fn lemma_pigeon_consistent(s: GState, idx: int, secret: Word)
    requires
        s.confirmed.len() == 5,
        consistent(s, secret),
        0 <= idx < s.required.len(),
    ensures
        pigeon_step(s, idx) is Some,
        consistent(pigeon_step(s, idx)->0, secret),
        pigeon_step(s, idx)->0.confirmed.len() == 5,
        pigeon_step(s, idx)->0.candidates == s.candidates,
        pigeon_step(s, idx)->0.excluded == s.excluded,
{
    let ch = s.required[idx].0;
    let p = s.required[idx].1;
    assert(word_contains(secret, ch));
    let t = choose|t: int| 0 <= t < 5 && secret@[t] == ch;
    assert(slot_open(s, ch, p, t)) by {
        if pos_contains(p, t) {
            assert(secret@[t] != ch);
        }
        if s.confirmed[t] is Some && s.confirmed[t]->0 != ch {
            assert(secret@[t] == s.confirmed[t]->0);
        }
    }
    lemma_open_count_facts(s, ch, p, t);
    if open_count(s, ch, p) == 1 {
        let f = promote(s, idx);
        assert(t == first_open_slot(s, ch, p));
        assert(f.confirmed == s.confirmed.update(t, Some(ch)));
        assert forall|k: int|
            0 <= k < f.required.len() implies word_contains(secret, (#[trigger] f.required[k]).0)
        by {
            if k < idx {
                assert(f.required[k] == s.required[k]);
            } else {
                assert(f.required[k] == s.required[k + 1]);
            }
        }
        assert forall|k: int, i: int|
            0 <= k < f.required.len() && #[trigger] pos_contains(f.required[k].1, i) implies secret@[i]
            != f.required[k].0 by {
            if k < idx {
                assert(f.required[k] == s.required[k]);
            } else {
                assert(f.required[k] == s.required[k + 1]);
            }
        }
        assert forall|i: int|
            0 <= i < 5 && (#[trigger] f.confirmed[i]) is Some implies secret@[i]
            == f.confirmed[i]->0 by {
            if i == t {
                assert(f.confirmed[i] == Some(ch));
            }
        }
    }
}

/// One slot of honest feedback keeps the state consistent with the
/// secret that generated it.
proof fn lemma_step_slot_consistent(s: GState, secret: Word, guess: Word, i: int)
    requires
        s.confirmed.len() == 5,
        consistent(s, secret),
        0 <= i < 5,
    ensures
        step_slot(s, guess@[i], crate::play::grade_slot(secret, guess, i), i) is Some,
        consistent(step_slot(s, guess@[i], crate::play::grade_slot(secret, guess, i), i)->0, secret),
        step_slot(s, guess@[i], crate::play::grade_slot(secret, guess, i), i)->0.confirmed.len()
            == 5,
        step_slot(s, guess@[i], crate::play::grade_slot(secret, guess, i), i)->0.candidates
            == s.candidates,
{
    let ch = guess@[i];
    let stat = crate::play::grade_slot(secret, guess, i);
    match stat {
        LetterFeedback::Excluded => {
            assert(!word_contains(secret, ch));
            let f = step_slot(s, ch, stat, i)->0;
            lemma_exclude_letter_props_weak(s.excluded, ch);
            assert forall|k: int|
                0 <= k < f.excluded.len() implies !word_contains(secret, #[trigger] f.excluded[k])
            by {
                if f.excluded[k] != ch {
                    let k0 = choose|k0: int|
                        0 <= k0 < s.excluded.len() && s.excluded[k0] == f.excluded[k];
                }
            }
        },
        LetterFeedback::Required => {
            assert(word_contains(secret, ch));
            assert(secret@[i] != ch);
            let s1 = GState { required: require_at(s.required, ch, i), ..s };
            let j = lb_required(s.required, ch);
            lemma_lb_required_props(s.required, ch);
            let r = require_at(s.required, ch, i);
            assert(consistent(s1, secret)) by {
                lemma_require_entries(s.required, ch, i);
                assert forall|k: int|
                    0 <= k < r.len() implies word_contains(secret, (#[trigger] r[k]).0) by {
                    if r[k].0 != ch {
                        let k0 = choose|k0: int| 0 <= k0 < s.required.len() && s.required[k0] == r[k];
                    }
                }
                assert forall|k: int, x: int|
                    0 <= k < r.len() && #[trigger] pos_contains(r[k].1, x) implies secret@[x]
                    != r[k].0 by {
                    if k == lb_required(s.required, ch) && r[k].0 == ch {
                        assert(pos_contains(
                            require_at(s.required, ch, i)[lb_required(s.required, ch)].1,
                            x,
                        ));
                        if x != i {
                            assert(lb_required(s.required, ch) < s.required.len()
                                && s.required[lb_required(s.required, ch)].0 == ch && pos_contains(
                                s.required[lb_required(s.required, ch)].1,
                                x,
                            ));
                        }
                    } else {
                        let k0 = choose|k0: int| 0 <= k0 < s.required.len() && s.required[k0] == r[k];
                    }
                }
            }
            lemma_pigeon_consistent(s1, j, secret);
        },
        LetterFeedback::Confirmed => {
            assert(secret@[i] == ch);
            let f = step_slot(s, ch, stat, i)->0;
            assert forall|k: int|
                0 <= k < f.required.len() implies word_contains(secret, (#[trigger] f.required[k]).0)
            by {
                lemma_drop_required_entries(s.required, ch);
                let k0 = choose|k0: int| 0 <= k0 < s.required.len() && s.required[k0] == f.required[k];
            }
            assert forall|k: int, x: int|
                0 <= k < f.required.len() && #[trigger] pos_contains(f.required[k].1, x) implies secret@[x]
                != f.required[k].0 by {
                lemma_drop_required_entries(s.required, ch);
                let k0 = choose|k0: int| 0 <= k0 < s.required.len() && s.required[k0] == f.required[k];
            }
            assert forall|x: int|
                0 <= x < 5 && (#[trigger] f.confirmed[x]) is Some implies secret@[x]
                == f.confirmed[x]->0 by {
                if x == i {
                    assert(f.confirmed[x] == Some(ch));
                }
            }
        },
    }
}

/// Entries of the excluded list after an insert: each is the new letter
/// or an old entry.
proof fn lemma_exclude_letter_props_weak(ex: Seq<Letter>, ch: Letter)
    ensures
        forall|k: int|
            0 <= k < exclude_letter(ex, ch).len() ==> (#[trigger] exclude_letter(ex, ch)[k] == ch
                || ex.contains(exclude_letter(ex, ch)[k])),
{
    lemma_lb_letters_props(ex, ch);
    let j = lb_letters(ex, ch);
    let r = exclude_letter(ex, ch);
    assert forall|k: int| 0 <= k < r.len() implies (#[trigger] r[k] == ch || ex.contains(r[k])) by {
        if j < ex.len() && ex[j] == ch {
            assert(r[k] == ex[k]);
        } else if k < j {
            assert(r[k] == ex[k]);
        } else if k > j {
            assert(r[k] == ex[k - 1]);
        }
    }
}

/// Entries of the required list after recording a forbidden position:
/// each entry other than the letter's own is an old entry, and the
/// letter's entry holds exactly the old forbidden slots plus the new
/// one.
proof fn lemma_require_entries(req: Seq<(Letter, Positions)>, ch: Letter, i: int)
    requires
        0 <= i < 5,
    ensures
        require_at(req, ch, i)[lb_required(req, ch)].0 == ch,
        0 <= lb_required(req, ch) < require_at(req, ch, i).len(),
        forall|x: int|
            #[trigger] pos_contains(require_at(req, ch, i)[lb_required(req, ch)].1, x) <==> ((
            lb_required(req, ch) < req.len() && req[lb_required(req, ch)].0 == ch && pos_contains(
                req[lb_required(req, ch)].1,
                x,
            )) || x == i),
        forall|k: int|
            0 <= k < require_at(req, ch, i).len() && k != lb_required(req, ch)
                ==> req.contains(#[trigger] require_at(req, ch, i)[k]),
    decreases 0int,
{
    lemma_lb_required_props(req, ch);
    let j = lb_required(req, ch);
    let r = require_at(req, ch, i);
    if j < req.len() && req[j].0 == ch {
        let old_bits = req[j].1.bits;
        assert(r == req.update(j, (ch, Positions { bits: old_bits | pos_bit(i) })));
        assert forall|x: int|
            pos_contains(#[trigger] r[j].1, x) <==> ((j < req.len() && req[j].0 == ch
                && pos_contains(req[j].1, x)) || x == i) by {
            crate::feedback::lemma_pos_or(old_bits, pos_bit(i), x);
            crate::feedback::lemma_pos_single(pos_bit(i), i, x);
        }
        assert forall|k: int| 0 <= k < r.len() && k != j implies req.contains(#[trigger] r[k]) by {
            assert(r[k] == req[k]);
        }
    } else {
        assert(r == req.insert(j, (ch, Positions { bits: pos_bit(i) })));
        assert forall|x: int|
            pos_contains(#[trigger] r[j].1, x) <==> ((j < req.len() && req[j].0 == ch
                && pos_contains(req[j].1, x)) || x == i) by {
            crate::feedback::lemma_pos_single(pos_bit(i), i, x);
        }
        assert forall|k: int| 0 <= k < r.len() && k != j implies req.contains(#[trigger] r[k]) by {
            if k < j {
                assert(r[k] == req[k]);
            } else {
                assert(r[k] == req[k - 1]);
            }
        }
    }
}

/// Entries after dropping a letter are old entries.
proof fn lemma_drop_required_entries(req: Seq<(Letter, Positions)>, ch: Letter)
    ensures
        forall|k: int|
            0 <= k < drop_required(req, ch).len() ==> req.contains(
                #[trigger] drop_required(req, ch)[k],
            ),
{
    lemma_lb_required_props(req, ch);
    let j = lb_required(req, ch);
    let r = drop_required(req, ch);
    assert forall|k: int| 0 <= k < r.len() implies req.contains(#[trigger] r[k]) by {
        if j < req.len() && req[j].0 == ch {
            if k < j {
                assert(r[k] == req[k]);
            } else {
                assert(r[k] == req[k + 1]);
            }
        } else {
            assert(r[k] == req[k]);
        }
    }
}

/// Honest slot processing keeps consistency and never signals a
/// contradiction.
proof fn lemma_process_slots_consistent(
    s: GState,
    secret: Word,
    guess: Word,
    chars: Seq<(Letter, LetterFeedback)>,
    k: int,
)
    requires
        s.confirmed.len() == 5,
        consistent(s, secret),
        0 <= k <= 5,
        chars.len() == 5,
        forall|i: int|
            0 <= i < 5 ==> #[trigger] chars[i] == (
                guess@[i],
                crate::play::grade_slot(secret, guess, i),
            ),
    ensures
        process_slots(s, chars, k) is Some,
        consistent(process_slots(s, chars, k)->0, secret),
        process_slots(s, chars, k)->0.confirmed.len() == 5,
        process_slots(s, chars, k)->0.candidates == s.candidates,
    decreases 5 - k,
{
    if k < 5 {
        assert(chars[k] == (guess@[k], crate::play::grade_slot(secret, guess, k)));
        lemma_step_slot_consistent(s, secret, guess, k);
        let s1 = step_slot(s, chars[k].0, chars[k].1, k)->0;
        lemma_process_slots_consistent(s1, secret, guess, chars, k + 1);
    }
}

/// Honest draining keeps consistency and never signals a contradiction.
proof fn lemma_drain_consistent(s: GState, secret: Word)
    requires
        s.confirmed.len() == 5,
        consistent(s, secret),
    ensures
        drain(s) is Some,
        consistent(drain(s)->0, secret),
        drain(s)->0.candidates == s.candidates,
    decreases s.required.len(),
{
    let k = first_low(s, 0);
    if k == -1 {
    } else {
        lemma_first_low_in_range(s, 0);
        lemma_pigeon_consistent(s, k, secret);
        lemma_open_count_unfold(s, s.required[k].0, s.required[k].1);
        if open_count(s, s.required[k].0, s.required[k].1) == 0 {
        } else {
            assert(open_count(s, s.required[k].0, s.required[k].1) == 1);
            lemma_drain_consistent(promote(s, k), secret);
        }
    }
}

/// Secret preservation: a round of feedback graded honestly from the
/// secret never signals a contradiction, keeps the state consistent
/// with the secret, and never removes the secret from the candidate
/// list.
pub proof fn lemma_analyze_preserves_secret(
    s: GState,
    secret: Word,
    guess: Word,
    chars: Seq<(Letter, LetterFeedback)>,
)
    requires
        s.confirmed.len() == 5,
        consistent(s, secret),
        chars.len() == 5,
        forall|i: int|
            0 <= i < 5 ==> #[trigger] chars[i] == (
                guess@[i],
                crate::play::grade_slot(secret, guess, i),
            ),
    ensures
        analyze_spec(s, chars) is Some,
        consistent(analyze_spec(s, chars)->0, secret),
        s.candidates.contains(secret) ==> analyze_spec(s, chars)->0.candidates.contains(secret),
{
    let s0 = analyze_s0(s, chars);
    assert(consistent(s0, secret) && s0.confirmed.len() == 5);
    if s.candidates.contains(secret) {
        assert(s0.candidates.contains(secret)) by {
            if !chars_all_confirmed(chars) {
                let j = first_match(s.candidates, chars, 0);
                if j != -1 {
                    lemma_first_match_in_range(s.candidates, chars, 0);
                    assert(matches_chars(s.candidates[j], chars));
                    assert(!matches_chars(secret, chars)) by {
                        if matches_chars(secret, chars) {
                            assert forall|i: int| 0 <= i < 5 implies #[trigger] chars[i].1
                                == LetterFeedback::Confirmed by {
                                assert(secret@[i] == chars[i].0);
                                assert(chars[i].0 == guess@[i]);
                                assert(chars[i].1 == crate::play::grade_slot(secret, guess, i));
                            }
                        }
                    }
                    let idx = choose|idx: int|
                        0 <= idx < s.candidates.len() && s.candidates[idx] == secret;
                    let r = s.candidates.remove(j);
                    if idx < j {
                        assert(r[idx] == secret);
                    } else {
                        assert(idx != j);
                        assert(r[idx - 1] == secret);
                    }
                }
            }
        }
    }
    lemma_process_slots_consistent(s0, secret, guess, chars, 0);
    let s1 = process_slots(s0, chars, 0)->0;
    lemma_drain_consistent(s1, secret);
}

/// A first match, when found, indexes the candidate list and matches.
proof fn lemma_first_match_in_range(
    cands: Seq<Word>,
    chars: Seq<(Letter, LetterFeedback)>,
    j: int,
)
    requires
        0 <= j,
        first_match(cands, chars, j) != -1,
    ensures
        j <= first_match(cands, chars, j) < cands.len(),
        matches_chars(cands[first_match(cands, chars, j)], chars),
    decreases cands.len() - j,
{
    if j < cands.len() {
        if matches_chars(cands[j], chars) {
        } else {
            lemma_first_match_in_range(cands, chars, j + 1);
        }
    }
}

/// A state with no knowledge yet is consistent with every secret.
pub proof fn lemma_fresh_consistent(s: GState, secret: Word)
    requires
        s.excluded.len() == 0,
        s.required.len() == 0,
        s.confirmed.len() == 5,
        forall|i: int| 0 <= i < 5 ==> (#[trigger] s.confirmed[i]) is None,
    ensures
        consistent(s, secret),
{
}


/// Whether a word satisfies required letter `k` of the state: the word
/// contains the letter, and never in an open slot the letter is known
/// not to occupy.
pub open spec fn req_ok(s: GState, w: Word, k: int) -> bool {
    &&& word_contains(w, s.required[k].0)
    &&& forall|i: int|
        0 <= i < 5 && s.confirmed[i] is None && w@[i] == s.required[k].0 ==> !pos_contains(
            s.required[k].1,
            i,
        )
}

/// The pruning rule: a word survives exactly when every confirmed slot
/// matches, it contains no excluded letter anywhere, and it satisfies
/// every required letter.
pub open spec fn keeps(s: GState, w: Word) -> bool {
    &&& forall|i: int|
        0 <= i < 5 && (#[trigger] s.confirmed[i]) is Some ==> w@[i] == s.confirmed[i]->0
    &&& forall|k: int| 0 <= k < s.excluded.len() ==> !word_contains(w, #[trigger] s.excluded[k])
    &&& forall|k: int| 0 <= k < s.required.len() ==> #[trigger] req_ok(s, w, k)
}

/// The first `k` candidates that survive pruning, in their current
/// order.
pub open spec fn kept_upto(s: GState, k: int) -> Seq<Word>
    decreases k,
{
    if k <= 0 {
        Seq::empty()
    } else if keeps(s, s.candidates[k - 1]) {
        kept_upto(s, k - 1).push(s.candidates[k - 1])
    } else {
        kept_upto(s, k - 1)
    }
}

/// The candidates that survive pruning, in their current order.
pub open spec fn kept_candidates(s: GState) -> Seq<Word> {
    kept_upto(s, s.candidates.len() as int)
}

/// No more candidates survive than there were.
proof fn lemma_kept_upto_len(s: GState, k: int)
    ensures
        kept_upto(s, k).len() <= (if k >= 0 {
            k
        } else {
            0
        }),
    decreases k,
{
    if k > 0 {
        lemma_kept_upto_len(s, k - 1);
    }
}

/// A surviving candidate stays in the surviving list.
proof fn lemma_kept_upto_contains(s: GState, idx: int, k: int)
    requires
        0 <= idx < k,
        keeps(s, s.candidates[idx]),
    ensures
        kept_upto(s, k).contains(s.candidates[idx]),
    decreases k,
{
    if k - 1 == idx {
        let t = kept_upto(s, k);
        assert(t[t.len() - 1] == s.candidates[idx]);
    } else {
        lemma_kept_upto_contains(s, idx, k - 1);
        let t0 = kept_upto(s, k - 1);
        let i0 = choose|i0: int| 0 <= i0 < t0.len() && t0[i0] == s.candidates[idx];
        assert(kept_upto(s, k)[i0] == s.candidates[idx]);
    }
}

/// Whether probe `p` beats the organic guess (the top-ranked candidate)
/// on the current candidate set: strictly more buckets, or the same
/// number with a strictly smaller worst case, or the same worst case
/// with a strictly smaller filed total.
pub open spec fn burner_wins(cands: Seq<Word>, probe: Word) -> bool {
    let pm = groups(cands, probe);
    let om = groups(cands, cands[0]);
    ||| pm.len() > om.len()
    ||| (pm.len() == om.len() && (max_bucket(pm) < max_bucket(om) || (max_bucket(pm) == max_bucket(
        om,
    ) && total(pm) < total(om))))
}

/// What prune guarantees of an injected probe: its partition has more
/// than two buckets (a probe turn must beat a binary elimination) and
/// it beats the organic guess.
pub open spec fn burner_sound(cands: Seq<Word>, probe: Word) -> bool {
    &&& groups(cands, probe).len() > 2
    &&& burner_wins(cands, probe)
}

/// What prune does to the candidate list: the survivors of the
/// filter are re-ranked by the frequency heuristic computed over them;
/// then, exactly when few turns remain, the field is small but still
/// ambiguous, and the selector finds a probe that provably beats the
/// organic guess, that probe is injected at the front — otherwise the
/// ranked survivors stand as they are.
pub open spec fn prune_post(pre: GState, post: GState, turn: u32, dict: Seq<Word>) -> bool {
    let ranked = frequency_ranked(kept_candidates(pre));
    let probing = turn < 6 && 3 <= ranked.len() <= 26;
    let choice = burner_choice(GState { candidates: ranked, ..pre }, dict);
    if probing && choice is Some {
        &&& post.candidates == seq![choice->0] + ranked
        &&& dict.contains(choice->0)
        &&& burner_sound(ranked, choice->0)
    } else {
        post.candidates == ranked
    }
}

/// Tiebreaker soundness: a probe that wins never has fewer buckets than
/// the organic guess, and when the bucket counts tie, its worst-case
/// bucket is no larger than the organic one and it improves strictly on
/// the worst case or on the filed total.  (A probe that wins on bucket
/// count alone carries no worst-case guarantee.)
pub proof fn lemma_tiebreaker_soundness(cands: Seq<Word>, probe: Word)
    requires
        burner_wins(cands, probe),
    ensures
        groups(cands, probe).len() >= groups(cands, cands[0]).len(),
        groups(cands, probe).len() == groups(cands, cands[0]).len() ==> max_bucket(
            groups(cands, probe),
        ) <= max_bucket(groups(cands, cands[0])),
        groups(cands, probe).len() == groups(cands, cands[0]).len() ==> (max_bucket(
            groups(cands, probe),
        ) < max_bucket(groups(cands, cands[0])) || total(groups(cands, probe)) < total(
            groups(cands, cands[0]),
        )),
{
}

/// A state consistent with the secret never prunes the secret away.
pub proof fn lemma_consistent_keeps(s: GState, secret: Word)
    requires
        consistent(s, secret),
        s.confirmed.len() == 5,
    ensures
        keeps(s, secret),
{
    assert forall|k: int| 0 <= k < s.required.len() implies #[trigger] req_ok(s, secret, k) by {
        assert(word_contains(secret, s.required[k].0));
        assert forall|i: int|
            0 <= i < 5 && s.confirmed[i] is None && secret@[i] == s.required[k].0 implies !pos_contains(
            s.required[k].1,
            i,
        ) by {
            if pos_contains(s.required[k].1, i) {
                assert(secret@[i] != s.required[k].0);
            }
        }
    }
}

/// The secret survives the pruning filter of a consistent state.
pub proof fn lemma_consistent_survives_filter(s: GState, secret: Word)
    requires
        consistent(s, secret),
        s.confirmed.len() == 5,
        s.candidates.contains(secret),
    ensures
        kept_candidates(s).contains(secret),
{
    lemma_consistent_keeps(s, secret);
    let i = choose|i: int| 0 <= i < s.candidates.len() && s.candidates[i] == secret;
    lemma_kept_upto_contains(s, i, s.candidates.len() as int);
}

/// In a strictly ascending letter list, the ordinal grows at least as
/// fast as the index.
proof fn lemma_letters_ord_ge_index(s: Seq<Letter>, k: int)
    requires
        forall|a: int, b: int|
            0 <= a < b < s.len() ==> letter_ord(#[trigger] s[a]) < letter_ord(#[trigger] s[b]),
        0 <= k < s.len(),
    ensures
        letter_ord(s[k]) >= k,
    decreases k,
{
    if k > 0 {
        lemma_letters_ord_ge_index(s, k - 1);
    }
}

/// A strictly ascending letter list holds at most 26 letters.
proof fn lemma_sorted_letters_len(s: Seq<Letter>)
    requires
        forall|a: int, b: int|
            0 <= a < b < s.len() ==> letter_ord(#[trigger] s[a]) < letter_ord(#[trigger] s[b]),
    ensures
        s.len() <= 26,
{
    crate::word::lemma_letter_ord_bijective();
    if s.len() > 26 {
        lemma_letters_ord_ge_index(s, 26);
    }
}

/// In a strictly ascending required list, the key ordinal grows at
/// least as fast as the index.
proof fn lemma_required_ord_ge_index(s: Seq<(Letter, Positions)>, k: int)
    requires
        forall|a: int, b: int|
            0 <= a < b < s.len() ==> letter_ord(#[trigger] s[a].0) < letter_ord(
                #[trigger] s[b].0,
            ),
        0 <= k < s.len(),
    ensures
        letter_ord(s[k].0) >= k,
    decreases k,
{
    if k > 0 {
        lemma_required_ord_ge_index(s, k - 1);
    }
}

/// A strictly ascending required list holds at most 26 entries.
proof fn lemma_sorted_required_len(s: Seq<(Letter, Positions)>)
    requires
        forall|a: int, b: int|
            0 <= a < b < s.len() ==> letter_ord(#[trigger] s[a].0) < letter_ord(
                #[trigger] s[b].0,
            ),
    ensures
        s.len() <= 26,
{
    crate::word::lemma_letter_ord_bijective();
    if s.len() > 26 {
        lemma_required_ord_ge_index(s, 26);
    }
}


/// How many excluded letters a word reuses.
pub open spec fn known_in_excluded(ex: Seq<Letter>, w: Word) -> int
    decreases ex.len(),
{
    if ex.len() == 0 {
        0
    } else {
        known_in_excluded(ex.drop_last(), w) + if word_contains(w, ex.last()) {
            1int
        } else {
            0int
        }
    }
}

/// How many required letters a word reuses.
pub open spec fn known_in_required(req: Seq<(Letter, Positions)>, w: Word) -> int
    decreases req.len(),
{
    if req.len() == 0 {
        0
    } else {
        known_in_required(req.drop_last(), w) + if word_contains(w, req.last().0) {
            1int
        } else {
            0int
        }
    }
}

/// How many of the first `k` confirmed slots hold a letter the word
/// reuses.
pub open spec fn known_in_confirmed_upto(conf: Seq<Option<Letter>>, w: Word, k: int) -> int
    decreases k,
{
    if k <= 0 {
        0
    } else {
        known_in_confirmed_upto(conf, w, k - 1) + if conf[k - 1] is Some && word_contains(
            w,
            conf[k - 1]->0,
        ) {
            1int
        } else {
            0int
        }
    }
}

/// How many already-known letters — excluded, required or confirmed —
/// a probe word reuses.  Probing with known letters wastes the chance
/// to learn something new.
pub open spec fn known_overlap(s: GState, w: Word) -> int {
    known_in_excluded(s.excluded, w) + known_in_required(s.required, w) + known_in_confirmed_upto(
        s.confirmed,
        w,
        5,
    )
}

/// The composite ranking key of a probe, ascending-better: fewest known
/// letters reused first, then most buckets, then lowest potency cost,
/// then words with five distinct letters.
pub open spec fn probe_rank(s: GState, probe: Word) -> int {
    ((known_overlap(s, probe) * 64 + 63 - groups(s.candidates, probe).len()) * 0x4000000 + potency(
        groups(s.candidates, probe),
    )) * 2 + (if crate::word::word_is_unique(probe) {
        0int
    } else {
        1int
    })
}

/// The surviving probes in dictionary order: the first `k` dictionary
/// words whose partition of the candidates beats a binary elimination,
/// each paired with its ranking key.
pub open spec fn eligible_upto(s: GState, dict: Seq<Word>, k: int) -> Seq<(u64, Word)>
    decreases k,
{
    if k <= 0 {
        Seq::empty()
    } else {
        let t = eligible_upto(s, dict, k - 1);
        if groups(s.candidates, dict[k - 1]).len() > 2 {
            t.push((probe_rank(s, dict[k - 1]) as u64, dict[k - 1]))
        } else {
            t
        }
    }
}

/// The stable insertion point of a ranked pair: after every pair whose
/// key is not larger, so equal-key probes keep dictionary order.
pub open spec fn pair_pos(s: Seq<(u64, Word)>, e: (u64, Word)) -> int
    decreases s.len(),
{
    if s.len() == 0 {
        0
    } else if s[0].0 > e.0 {
        0
    } else {
        1 + pair_pos(s.drop_first(), e)
    }
}

/// The ranking of the first `k` pairs, built by stable insertion.
pub open spec fn pairs_ranked_upto(ps: Seq<(u64, Word)>, k: int) -> Seq<(u64, Word)>
    decreases k,
{
    if k <= 0 {
        Seq::empty()
    } else {
        let t = pairs_ranked_upto(ps, k - 1);
        t.insert(pair_pos(t, ps[k - 1]), ps[k - 1])
    }
}

/// The unique stable ascending sort of ranked pairs by key.
pub open spec fn pairs_ranked(ps: Seq<(u64, Word)>) -> Seq<(u64, Word)> {
    pairs_ranked_upto(ps, ps.len() as int)
}

/// The first of the ranked probes `t..lim` that beats the organic
/// guess, if any.
pub open spec fn pick_winner(cands: Seq<Word>, ranked: Seq<(u64, Word)>, t: int, lim: int) -> Option<
    Word,
>
    decreases lim - t,
{
    if t < 0 || t >= lim {
        None
    } else if burner_wins(cands, ranked[t].1) {
        Some(ranked[t].1)
    } else {
        pick_winner(cands, ranked, t + 1, lim)
    }
}

/// The probe selector's whole decision: rank the surviving probes,
/// compare the best five against the organic guess in order, and take
/// the first that provably wins — or none, and the organic guess
/// stands.
pub open spec fn burner_choice(s: GState, dict: Seq<Word>) -> Option<Word> {
    let ranked = pairs_ranked(eligible_upto(s, dict, dict.len() as int));
    let lim = if ranked.len() < 5 {
        ranked.len() as int
    } else {
        5int
    };
    pick_winner(s.candidates, ranked, 0, lim)
}

/// Any index with the defining properties is the pair insertion point.
proof fn lemma_pair_pos_is(s: Seq<(u64, Word)>, e: (u64, Word), r: int)
    requires
        0 <= r <= s.len(),
        forall|j: int| 0 <= j < r ==> (#[trigger] s[j]).0 <= e.0,
        r < s.len() ==> s[r].0 > e.0,
    ensures
        pair_pos(s, e) == r,
    decreases s.len(),
{
    if s.len() == 0 {
    } else if s[0].0 > e.0 {
        assert(r == 0);
    } else {
        assert(r >= 1);
        let t = s.drop_first();
        assert forall|j: int| 0 <= j < r - 1 implies (#[trigger] t[j]).0 <= e.0 by {
            assert(t[j] == s[j + 1]);
        }
        if r - 1 < t.len() {
            assert(t[r - 1] == s[r]);
        }
        lemma_pair_pos_is(t, e, r - 1);
    }
}

/// Probes that do not win may be passed over without changing the
/// selector's decision.
proof fn lemma_pick_winner_skip(cands: Seq<Word>, ranked: Seq<(u64, Word)>, t: int, lim: int)
    requires
        0 <= t <= lim,
        forall|u: int| 0 <= u < t ==> !burner_wins(cands, (#[trigger] ranked[u]).1),
    ensures
        pick_winner(cands, ranked, 0, lim) == pick_winner(cands, ranked, t, lim),
    decreases t,
{
    if t > 0 {
        lemma_pick_winner_skip(cands, ranked, t - 1, lim);
        assert(pick_winner(cands, ranked, t - 1, lim) == pick_winner(cands, ranked, t, lim));
    }
}

/// Sorts probe rankings ascending by key, keeping the same multiset of
/// entries.
fn sort_pairs(v: &mut Vec<(u64, Word)>)
    ensures
        final(v)@ == pairs_ranked(old(v)@),
        final(v)@.len() == old(v)@.len(),
        final(v)@.to_multiset() == old(v)@.to_multiset(),
        forall|a: int, b: int|
            0 <= a < b < final(v)@.len() ==> (#[trigger] final(v)@[a]).0 <= (
            #[trigger] final(v)@[b]).0,
{
    let ghost orig = v@;
    let n = v.len();
    let mut out: Vec<(u64, Word)> = Vec::new();
    proof {
        assert(out@.to_multiset() =~= orig.take(0).to_multiset());
    }
    let mut i: usize = 0;
    while i < n
        invariant
            n == v@.len(),
            v@ == orig,
            i <= n,
            out@.len() == i,
            out@ == pairs_ranked_upto(orig, i as int),
            out@.to_multiset() == orig.take(i as int).to_multiset(),
            forall|a: int, b: int|
                0 <= a < b < out@.len() ==> (#[trigger] out@[a]).0 <= (#[trigger] out@[b]).0,
        decreases n - i,
    {
        let e = v[i];
        let mut p: usize = 0;
        while p < out.len() && out[p].0 <= e.0
            invariant
                p <= out@.len(),
                forall|a: int| 0 <= a < p ==> (#[trigger] out@[a]).0 <= e.0,
            decreases out@.len() - p,
        {
            p += 1;
        }
        let ghost before = out@;
        proof {
            lemma_pair_pos_is(before, e, p as int);
        }
        out.insert(p, e);
        proof {
            assert(out@ == pairs_ranked_upto(orig, i as int + 1));
            assert(out@.remove(p as int) =~= before);
            assert(out@.to_multiset().remove(e) =~= before.to_multiset());
            assert(out@.contains(e)) by {
                assert(out@[p as int] == e);
            }
            assert(out@.to_multiset() =~= before.to_multiset().insert(e));
            assert(orig.take(i as int + 1).drop_last() =~= orig.take(i as int));
            assert(orig.take(i as int + 1) =~= orig.take(i as int).push(e));
            assert(orig.take(i as int + 1).to_multiset() =~= orig.take(
                i as int,
            ).to_multiset().insert(e));
            assert forall|a: int, b: int| 0 <= a < b < out@.len() implies (#[trigger] out@[a]).0
                <= (#[trigger] out@[b]).0 by {
                if b < p {
                    assert(out@[a] == before[a] && out@[b] == before[b]);
                } else if a > p {
                    assert(out@[a] == before[a - 1] && out@[b] == before[b - 1]);
                } else if a == p {
                    assert(out@[a] == e && out@[b] == before[b - 1]);
                } else if b == p {
                    assert(out@[a] == before[a] && out@[b] == e);
                } else {
                    assert(out@[a] == before[a] && out@[b] == before[b - 1]);
                }
            }
        }
        i += 1;
    }
    proof {
        assert(orig.take(n as int) =~= orig);
    }
    let mut j: usize = 0;
    let m = out.len();
    v.clear();
    while j < m
        invariant
            m == out@.len(),
            j <= m,
            v@ == out@.take(j as int),
        decreases m - j,
    {
        v.push(out[j]);
        proof {
            assert(v@ =~= out@.take(j as int + 1));
        }
        j += 1;
    }
    proof {
        assert(v@ =~= out@);
    }
}

impl Guesser {
    /// Whether a candidate word survives the current constraints.
    #[verifier::loop_isolation(false)]
    fn keeps_word(&self, w: &Word) -> (r: bool)
        requires
            state_wf(self@),
        ensures
            r == keeps(self@, *w),
    {
        let mut i: usize = 0;
        while i < 5
            invariant
                i <= 5,
                forall|x: int|
                    0 <= x < i && (#[trigger] self@.confirmed[x]) is Some ==> w@[x]
                        == self@.confirmed[x]->0,
            decreases 5 - i,
        {
            match self.confirmed[i] {
                Option::Some(c) => {
                    if !letter_eq(w.0[i], c) {
                        return false;
                    }
                },
                Option::None => {},
            }
            i += 1;
        }
        let ne = self.excluded.len();
        let mut k: usize = 0;
        while k < ne
            invariant
                k <= ne,
                forall|x: int|
                    0 <= x < k ==> !word_contains(*w, #[trigger] self@.excluded[x]),
            decreases ne - k,
        {
            if w.contains(self.excluded[k]) {
                return false;
            }
            k += 1;
        }
        let nr = self.required.len();
        let mut k2: usize = 0;
        while k2 < nr
            invariant
                k2 <= nr,
                forall|x: int| 0 <= x < k2 ==> #[trigger] req_ok(self@, *w, x),
            decreases nr - k2,
        {
            let (ch, p) = self.required[k2];
            if !w.contains(ch) {
                proof {
                    assert(!req_ok(self@, *w, k2 as int));
                }
                return false;
            }
            let mut i2: usize = 0;
            while i2 < 5
                invariant
                    i2 <= 5,
                    ch == self@.required[k2 as int].0,
                    p == self@.required[k2 as int].1,
                    forall|x: int|
                        0 <= x < i2 && self@.confirmed[x] is None && w@[x] == ch
                            ==> !pos_contains(p, x),
                decreases 5 - i2,
            {
                let open = match self.confirmed[i2] {
                    Option::Some(_) => false,
                    Option::None => true,
                };
                if open && letter_eq(w.0[i2], ch) && p.contains(i2) {
                    proof {
                        assert(!req_ok(self@, *w, k2 as int));
                    }
                    return false;
                }
                i2 += 1;
            }
            proof {
                assert(req_ok(self@, *w, k2 as int));
            }
            k2 += 1;
        }
        true
    }

    /// How many of the probe's letters are already known — excluded,
    /// required, or confirmed.  Probing with known letters wastes the
    /// chance to learn something new.
    #[verifier::loop_isolation(false)]
    fn known_letter_overlap(&self, w: &Word) -> (r: usize)
        requires
            state_wf(self@),
        ensures
            r == known_overlap(self@, *w),
            r <= 57,
    {
        proof {
            lemma_sorted_letters_len(self@.excluded);
            lemma_sorted_required_len(self@.required);
        }
        let mut r: usize = 0;
        let ne = self.excluded.len();
        let mut k: usize = 0;
        while k < ne
            invariant
                k <= ne,
                r <= k,
                r == known_in_excluded(self@.excluded.take(k as int), *w),
            decreases ne - k,
        {
            proof {
                assert(self@.excluded.take(k as int + 1).drop_last() =~= self@.excluded.take(
                    k as int,
                ));
                assert(self@.excluded.take(k as int + 1).last() == self@.excluded[k as int]);
            }
            if w.contains(self.excluded[k]) {
                r += 1;
            }
            k += 1;
        }
        proof {
            assert(self@.excluded.take(ne as int) =~= self@.excluded);
        }
        let ghost ex_total = known_in_excluded(self@.excluded, *w);
        let nr = self.required.len();
        let mut k2: usize = 0;
        while k2 < nr
            invariant
                k2 <= nr,
                r <= ne + k2,
                r == ex_total + known_in_required(self@.required.take(k2 as int), *w),
            decreases nr - k2,
        {
            proof {
                assert(self@.required.take(k2 as int + 1).drop_last() =~= self@.required.take(
                    k2 as int,
                ));
                assert(self@.required.take(k2 as int + 1).last() == self@.required[k2 as int]);
            }
            if w.contains(self.required[k2].0) {
                r += 1;
            }
            k2 += 1;
        }
        proof {
            assert(self@.required.take(nr as int) =~= self@.required);
        }
        let ghost req_total = known_in_required(self@.required, *w);
        let mut i: usize = 0;
        while i < 5
            invariant
                i <= 5,
                r <= ne + nr + i,
                r == ex_total + req_total + known_in_confirmed_upto(self@.confirmed, *w, i as int),
            decreases 5 - i,
        {
            match self.confirmed[i] {
                Option::Some(c) => {
                    if w.contains(c) {
                        r += 1;
                    }
                },
                Option::None => {},
            }
            i += 1;
        }
        r
    }

    /// The probe-word search: every dictionary word is ranked by how
    /// usefully its hypothetical feedback would partition the remaining
    /// candidates, and the best five are compared against the organic
    /// guess in rank order; the first that provably beats it is the
    /// decision, exactly as `burner_choice` says.
    #[verifier::loop_isolation(false)]
    #[verifier::rlimit(100)]
    fn encode_burner(
        &self,
        dictionary: &Vec<Word>,
        strategy: GradeStrategy,
        buffer: &mut Vec<crate::feedback::WordFeedback>,
    ) -> (r: Option<Word>)
        requires
            state_wf(self@),
            1 <= self@.candidates.len() <= 26,
            dictionary@.len() * self@.candidates.len() <= usize::MAX,
        ensures
            r == burner_choice(self@, dictionary@),
            r is Some ==> dictionary@.contains(r->0) && burner_sound(self@.candidates, r->0),
    {
        let ghost cands = self@.candidates;
        let n = dictionary.len();
        let m = self.candidates.len();
        // Pretend each candidate is the actual word: how would every
        // dictionary word fare as a probe against it?
        grade_many(dictionary, &self.candidates, strategy, buffer);
        // The organic guess's own partition of the candidates.
        let organic = self.candidates[0];
        let mut om = FeedbackMap::with_capacity(8);
        let mut j: usize = 0;
        while j < m
            invariant
                j <= m,
                crate::fmap::fmap_wf(om@),
                om@ == crate::fmap::groups_upto(cands, organic, j as int),
            decreases m - j,
        {
            let fb = crate::play::check_word(self.candidates[j], organic);
            om.push_word(fb.to_u64(), self.candidates[j]);
            j += 1;
        }
        proof {
            crate::fmap::lemma_groups_upto_bounds(cands, organic, m as int);
        }
        let om_len = om.len();
        let om_max = om.max_bucket_len();
        let om_total = om.total_len();
        // Rank each probe whose partition beats a binary elimination.
        let mut tbs: Vec<(u64, Word)> = Vec::new();
        let mut i: usize = 0;
        while i < n
            invariant
                i <= n,
                tbs@ == eligible_upto(self@, dictionary@, i as int),
                forall|t: int|
                    0 <= t < tbs@.len() ==> dictionary@.contains((#[trigger] tbs@[t]).1)
                        && groups(cands, tbs@[t].1).len() > 2,
            decreases n - i,
        {
            let probe = dictionary[i];
            let mut pmap = FeedbackMap::with_capacity(8);
            let mut j2: usize = 0;
            proof {
                assert((i + 1) * m <= n * m) by (nonlinear_arith)
                    requires
                        0 <= i < n,
                        0 <= m,
                ;
            }
            while j2 < m
                invariant
                    j2 <= m,
                    crate::fmap::fmap_wf(pmap@),
                    pmap@ == crate::fmap::groups_upto(cands, probe, j2 as int),
                decreases m - j2,
            {
                proof {
                    assert(i * m + j2 < n * m && i * m + m == (i + 1) * m) by (nonlinear_arith)
                        requires
                            0 <= i < n,
                            0 <= j2 < m,
                    ;
                }
                let fb = buffer[i * m + j2];
                proof {
                    assert(buffer@[i as int * m + j2]@ == crate::play::grade(
                        cands[j2 as int],
                        probe,
                    ));
                }
                pmap.push_word(fb.to_u64(), self.candidates[j2]);
                j2 += 1;
            }
            proof {
                crate::fmap::lemma_groups_upto_bounds(cands, probe, m as int);
            }
            if pmap.len() > 2 {
                let known = self.known_letter_overlap(&probe);
                let nb = pmap.len();
                let pot = pmap.potency_sum();
                let nu: u64 = if probe.is_unique() {
                    0
                } else {
                    1
                };
                let key: u64 = (((known as u64) * 64 + (63 - (nb as u64))) * 0x4000000 + (
                pot as u64)) * 2 + nu;
                proof {
                    assert(nb == groups(cands, probe).len());
                    assert(pot == potency(groups(cands, probe)));
                    assert(key == probe_rank(self@, probe));
                    assert(tbs@.push((key, probe)) =~= eligible_upto(
                        self@,
                        dictionary@,
                        i as int + 1,
                    ));
                }
                tbs.push((key, probe));
            } else {
                proof {
                    assert(tbs@ =~= eligible_upto(self@, dictionary@, i as int + 1));
                }
            }
            i += 1;
        }
        let ghost ranked_src = tbs@;
        proof {
            assert(ranked_src == eligible_upto(self@, dictionary@, dictionary@.len() as int));
        }
        sort_pairs(&mut tbs);
        // Compare the best few rankings against the organic guess.
        let lim = if tbs.len() < 5 {
            tbs.len()
        } else {
            5
        };
        proof {
            assert(tbs@ == pairs_ranked(eligible_upto(self@, dictionary@, dictionary@.len() as int)));
        }
        let mut t: usize = 0;
        while t < lim
            invariant
                t <= lim,
                forall|u: int| 0 <= u < t ==> !burner_wins(cands, (#[trigger] tbs@[u]).1),
            decreases lim - t,
        {
            let probe = tbs[t].1;
            proof {
                let pair = tbs@[t as int];
                assert(tbs@.contains(pair));
                assert(ranked_src.to_multiset().contains(pair));
                assert(ranked_src.contains(pair));
                let t0 = choose|t0: int| 0 <= t0 < ranked_src.len() && ranked_src[t0] == pair;
                assert(dictionary@.contains(probe) && groups(cands, probe).len() > 2);
            }
            let mut pmap = FeedbackMap::with_capacity(8);
            let mut j3: usize = 0;
            while j3 < m
                invariant
                    j3 <= m,
                    crate::fmap::fmap_wf(pmap@),
                    pmap@ == crate::fmap::groups_upto(cands, probe, j3 as int),
                decreases m - j3,
            {
                let fb = crate::play::check_word(self.candidates[j3], probe);
                pmap.push_word(fb.to_u64(), self.candidates[j3]);
                j3 += 1;
            }
            proof {
                crate::fmap::lemma_groups_upto_bounds(cands, probe, m as int);
            }
            let pl = pmap.len();
            let pmax = pmap.max_bucket_len();
            let ptot = pmap.total_len();
            let win = pl > om_len || (pl == om_len && (pmax < om_max || (pmax == om_max && ptot
                < om_total)));
            proof {
                assert(win == burner_wins(cands, probe));
            }
            if win {
                proof {
                    assert(burner_sound(cands, probe));
                    lemma_pick_winner_skip(cands, tbs@, t as int, lim as int);
                    assert(pick_winner(cands, tbs@, t as int, lim as int) == Some(probe));
                    assert(burner_choice(self@, dictionary@) == Some(probe));
                }
                return Some(probe);
            }
            t += 1;
        }
        proof {
            lemma_pick_winner_skip(cands, tbs@, lim as int, lim as int);
            assert(pick_winner(cands, tbs@, lim as int, lim as int) is None);
            assert(burner_choice(self@, dictionary@) is None);
        }
        None
    }

    /// Filters the candidate list against the current constraints,
    /// re-ranks the survivors by the frequency heuristic recomputed
    /// over them, and — when few turns remain and the field is small
    /// but still ambiguous — injects a probe word at the front if one
    /// provably beats the organic guess.
    #[verifier::loop_isolation(false)]
    #[verifier::rlimit(100)]
    pub fn prune(
        &mut self,
        turn: u32,
        dictionary: &Vec<Word>,
        strategy: GradeStrategy,
        scratch: &mut Vec<crate::feedback::WordFeedback>,
    )
        requires
            state_wf(old(self)@),
            old(self)@.candidates.len() <= 0x1000_0000,
            dictionary@.len() <= 0x1000_0000,
            dictionary@.len() * 26 <= usize::MAX,
        ensures
            state_wf(final(self)@),
            final(self)@.excluded == old(self)@.excluded,
            final(self)@.required == old(self)@.required,
            final(self)@.confirmed == old(self)@.confirmed,
            prune_post(old(self)@, final(self)@, turn, dictionary@),
    {
        let ghost s_old = old(self)@;
        let nc = self.candidates.len();
        let mut kept: Vec<Word> = Vec::new();
        let mut i: usize = 0;
        while i < nc
            invariant
                i <= nc,
                self@ == s_old,
                kept@ == kept_upto(s_old, i as int),
            decreases nc - i,
        {
            let w = self.candidates[i];
            let keep = self.keeps_word(&w);
            if keep {
                kept.push(w);
            }
            i += 1;
        }
        proof {
            assert(kept@ == kept_candidates(s_old));
            lemma_kept_upto_len(s_old, nc as int);
        }
        sort_by_frequency(&mut kept);
        self.candidates = kept;
        let ghost ranked = frequency_ranked(kept_candidates(s_old));
        proof {
            assert(self@.excluded == s_old.excluded);
            assert(self@.required == s_old.required);
            assert(self@.confirmed == s_old.confirmed);
            assert(state_wf(self@));
            assert(self@.candidates == ranked);
            assert(self@ == GState { candidates: ranked, ..s_old });
        }
        let len = self.candidates.len();
        if turn < 6 && 3 <= len && len <= 26 {
            proof {
                assert(dictionary@.len() * self@.candidates.len() <= dictionary@.len() * 26)
                    by (nonlinear_arith)
                    requires
                        self@.candidates.len() <= 26,
                        dictionary@.len() >= 0,
                ;
            }
            let tb = self.encode_burner(dictionary, strategy, scratch);
            proof {
                assert(tb == burner_choice(GState { candidates: ranked, ..s_old }, dictionary@));
            }
            match tb {
                Option::Some(probe) => {
                    self.candidates.insert(0, probe);
                    proof {
                        assert(self@.candidates =~= seq![probe] + ranked);
                    }
                },
                Option::None => {},
            }
        }
    }
}


/// Processing a round whose slots are all `Confirmed` fills every slot
/// with the guessed letter.
proof fn lemma_confirmed_slots_fill(s: GState, chars: Seq<(Letter, LetterFeedback)>, k: int)
    requires
        s.confirmed.len() == 5,
        chars.len() == 5,
        chars_all_confirmed(chars),
        0 <= k <= 5,
        forall|j: int| 0 <= j < k ==> #[trigger] s.confirmed[j] == Some(chars[j].0),
    ensures
        process_slots(s, chars, k) is Some,
        process_slots(s, chars, k)->0.confirmed.len() == 5,
        forall|i: int|
            0 <= i < 5 ==> #[trigger] process_slots(s, chars, k)->0.confirmed[i] == Some(
                chars[i].0,
            ),
        process_slots(s, chars, k)->0.candidates == s.candidates,
    decreases 5 - k,
{
    if k < 5 {
        assert(chars[k].1 == LetterFeedback::Confirmed);
        let s1 = step_slot(s, chars[k].0, chars[k].1, k)->0;
        assert(s1.confirmed == s.confirmed.update(k, Some(chars[k].0)));
        lemma_confirmed_slots_fill(s1, chars, k + 1);
    }
}

/// Draining never disturbs a board whose five slots already hold the
/// guessed letters: a promotion can only land on an open slot, and for
/// a fully confirmed board an open slot already holds the promoted
/// letter.
proof fn lemma_drain_keeps_filled(s: GState, chars: Seq<(Letter, LetterFeedback)>)
    requires
        s.confirmed.len() == 5,
        chars.len() == 5,
        forall|i: int| 0 <= i < 5 ==> #[trigger] s.confirmed[i] == Some(chars[i].0),
        drain(s) is Some,
    ensures
        forall|i: int| 0 <= i < 5 ==> #[trigger] drain(s)->0.confirmed[i] == Some(chars[i].0),
        drain(s)->0.candidates == s.candidates,
    decreases s.required.len(),
{
    let k = first_low(s, 0);
    if k == -1 {
    } else if open_count(s, s.required[k].0, s.required[k].1) == 0 {
    } else {
        lemma_first_low_in_range(s, 0);
        let ch = s.required[k].0;
        let p = s.required[k].1;
        lemma_open_count_unfold(s, ch, p);
        let t = first_open_slot(s, ch, p);
        assert(slot_open(s, ch, p, t));
        let m = promote(s, k);
        assert forall|i: int| 0 <= i < 5 implies #[trigger] m.confirmed[i] == Some(chars[i].0) by {
            if i == t {
                assert(chars[t].0 == ch);
            }
        }
        lemma_drain_keeps_filled(m, chars);
    }
}

/// The winning round: feedback with every slot `Confirmed` leaves the
/// candidate list untouched and, when it is accepted, fills every
/// confirmed slot with the guessed letters — the game ends in success
/// on that turn.
pub proof fn lemma_winning_round(s: GState, chars: Seq<(Letter, LetterFeedback)>)
    requires
        s.confirmed.len() == 5,
        chars.len() == 5,
        chars_all_confirmed(chars),
        analyze_spec(s, chars) is Some,
    ensures
        forall|i: int|
            0 <= i < 5 ==> #[trigger] analyze_spec(s, chars)->0.confirmed[i] == Some(chars[i].0),
        analyze_spec(s, chars)->0.candidates == s.candidates,
{
    let s0 = analyze_s0(s, chars);
    assert(s0 == s);
    lemma_confirmed_slots_fill(s, chars, 0);
    let s1 = process_slots(s0, chars, 0)->0;
    lemma_drain_keeps_filled(s1, chars);
}


/// In a well-formed state the required letters are pairwise distinct.
proof fn lemma_required_keys_unique(s: GState)
    requires
        state_wf(s),
    ensures
        forall|a: int, b: int|
            0 <= a < s.required.len() && 0 <= b < s.required.len() && a != b
                ==> (#[trigger] s.required[a]).0 != (#[trigger] s.required[b]).0,
{
    crate::word::lemma_letter_ord_bijective();
    assert forall|a: int, b: int|
        0 <= a < s.required.len() && 0 <= b < s.required.len() && a != b implies (
    #[trigger] s.required[a]).0 != (#[trigger] s.required[b]).0 by {
        if a < b {
            assert(letter_ord(s.required[a].0) < letter_ord(s.required[b].0));
        } else {
            assert(letter_ord(s.required[b].0) < letter_ord(s.required[a].0));
        }
    }
}

/// Promotion preserves well-formedness, keeps the other entries (with
/// indices shifted past the removed one), and leaves the candidates.
proof fn lemma_promote_wf(s: GState, idx: int)
    requires
        state_wf(s),
        0 <= idx < s.required.len(),
    ensures
        state_wf(promote(s, idx)),
        promote(s, idx).required.len() == s.required.len() - 1,
        forall|j: int|
            0 <= j < idx ==> #[trigger] promote(s, idx).required[j] == s.required[j],
        forall|j: int|
            idx <= j < s.required.len() - 1 ==> #[trigger] promote(s, idx).required[j]
                == s.required[j + 1],
{
    lemma_required_remove_props(s.required, idx);
    let m = promote(s, idx);
    assert forall|j: int| idx <= j < s.required.len() - 1 implies #[trigger] m.required[j]
        == s.required[j + 1] by {
    }
}

/// Promoting a different letter can only close slots for this one.
proof fn lemma_promote_shrinks_open(s: GState, idx: int, ch: Letter, p: Positions)
    requires
        s.confirmed.len() == 5,
        0 <= idx < s.required.len(),
        s.required[idx].0 != ch,
    ensures
        forall|i: int| slot_open(promote(s, idx), ch, p, i) ==> slot_open(s, ch, p, i),
        open_count(promote(s, idx), ch, p) <= open_count(s, ch, p),
{
    let m = promote(s, idx);
    let ch0 = s.required[idx].0;
    let t0 = first_open_slot(s, ch0, s.required[idx].1);
    assert forall|i: int| slot_open(m, ch, p, i) implies slot_open(s, ch, p, i) by {
        if i == t0 {
            assert(m.confirmed[i] == Some(ch0));
        }
    }
    lemma_open_count_unfold(s, ch, p);
    lemma_open_count_unfold(m, ch, p);
}

/// A required letter with no possible slot left is fatal: the drain
/// cannot succeed past it.
proof fn lemma_drain_no_dead_entry(s: GState, k: int)
    requires
        state_wf(s),
        0 <= k < s.required.len(),
        open_count(s, s.required[k].0, s.required[k].1) == 0,
    ensures
        drain(s) is None,
    decreases s.required.len(),
{
    let k0 = first_low(s, 0);
    assert(k0 != -1) by {
        if k0 == -1 {
            lemma_first_low_none(s, 0);
        }
    }
    lemma_first_low_in_range(s, 0);
    lemma_open_count_unfold(s, s.required[k0].0, s.required[k0].1);
    if open_count(s, s.required[k0].0, s.required[k0].1) == 0 {
    } else {
        assert(k0 != k);
        lemma_required_keys_unique(s);
        let m = promote(s, k0);
        lemma_promote_wf(s, k0);
        let kk = if k < k0 {
            k
        } else {
            k - 1
        };
        assert(m.required[kk] == s.required[k]);
        lemma_promote_shrinks_open(s, k0, s.required[k].0, s.required[k].1);
        lemma_open_count_unfold(m, s.required[k].0, s.required[k].1);
        lemma_drain_no_dead_entry(m, kk);
    }
}

/// Draining never disturbs a slot confirmed to a letter that no
/// required entry names: a promotion can only land on a slot that is
/// open for its own letter, and this slot is not.
proof fn lemma_drain_keeps_confirmed_letter(s: GState, ch: Letter, q: int)
    requires
        state_wf(s),
        0 <= q < 5,
        s.confirmed[q] == Some(ch),
        forall|j: int| 0 <= j < s.required.len() ==> (#[trigger] s.required[j]).0 != ch,
        drain(s) is Some,
    ensures
        drain(s)->0.confirmed[q] == Some(ch),
        forall|j: int|
            0 <= j < drain(s)->0.required.len() ==> (#[trigger] drain(s)->0.required[j]).0 != ch,
    decreases s.required.len(),
{
    let k0 = first_low(s, 0);
    if k0 == -1 {
    } else if open_count(s, s.required[k0].0, s.required[k0].1) == 0 {
    } else {
        lemma_first_low_in_range(s, 0);
        let ch0 = s.required[k0].0;
        let p0 = s.required[k0].1;
        lemma_open_count_unfold(s, ch0, p0);
        let t0 = first_open_slot(s, ch0, p0);
        assert(slot_open(s, ch0, p0, t0));
        assert(t0 != q) by {
            if t0 == q {
                assert(s.confirmed[q] == Some(ch));
                assert(ch0 != ch);
            }
        }
        let m = promote(s, k0);
        lemma_promote_wf(s, k0);
        assert(m.confirmed[q] == Some(ch));
        assert forall|j: int| 0 <= j < m.required.len() implies (#[trigger] m.required[j]).0 != ch
        by {
            if j < k0 {
                assert(m.required[j] == s.required[j]);
            } else {
                assert(m.required[j] == s.required[j + 1]);
            }
        }
        lemma_drain_keeps_confirmed_letter(m, ch, q);
    }
}

/// Pigeonhole promotion: when a required letter is down to exactly one
/// possible slot, a successful drain confirms it at that slot at once
/// and the letter leaves the required list.
#[verifier::rlimit(100)]
pub proof fn lemma_pigeonhole_promotion(s: GState, k: int)
    requires
        state_wf(s),
        0 <= k < s.required.len(),
        open_count(s, s.required[k].0, s.required[k].1) == 1,
        drain(s) is Some,
    ensures
        drain(s)->0.confirmed[first_open_slot(s, s.required[k].0, s.required[k].1)] == Some(
            s.required[k].0,
        ),
        forall|j: int|
            0 <= j < drain(s)->0.required.len() ==> (#[trigger] drain(s)->0.required[j]).0
                != s.required[k].0,
    decreases s.required.len(),
{
    let ch = s.required[k].0;
    let p = s.required[k].1;
    lemma_open_count_unfold(s, ch, p);
    let q = first_open_slot(s, ch, p);
    assert(slot_open(s, ch, p, q));
    let k0 = first_low(s, 0);
    assert(k0 != -1) by {
        if k0 == -1 {
            lemma_first_low_none(s, 0);
        }
    }
    lemma_first_low_in_range(s, 0);
    lemma_open_count_unfold(s, s.required[k0].0, s.required[k0].1);
    lemma_required_keys_unique(s);
    if open_count(s, s.required[k0].0, s.required[k0].1) == 0 {
    } else if k0 == k {
        let m = promote(s, k);
        lemma_promote_wf(s, k);
        assert(m.confirmed[q] == Some(ch));
        assert forall|j: int| 0 <= j < m.required.len() implies (#[trigger] m.required[j]).0 != ch
        by {
            if j < k {
                assert(m.required[j] == s.required[j]);
            } else {
                assert(m.required[j] == s.required[j + 1]);
            }
        }
        lemma_drain_keeps_confirmed_letter(m, ch, q);
    } else {
        let m = promote(s, k0);
        lemma_promote_wf(s, k0);
        let kk = if k < k0 {
            k
        } else {
            k - 1
        };
        assert(m.required[kk] == s.required[k]);
        lemma_promote_shrinks_open(s, k0, ch, p);
        lemma_open_count_unfold(m, ch, p);
        if open_count(m, ch, p) == 0 {
            lemma_drain_no_dead_entry(m, kk);
        } else {
            assert(open_count(m, ch, p) == 1);
            assert(slot_open(m, ch, p, q)) by {
                lemma_open_count_facts(s, ch, p, q);
                let t = choose|t: int| slot_open(m, ch, p, t);
                assert(slot_open(s, ch, p, t));
                assert(t == q);
            }
            lemma_open_count_facts(m, ch, p, q);
            assert(first_open_slot(m, ch, p) == q);
            lemma_pigeonhole_promotion(m, kk);
        }
    }
}

/// Whether two letters are the same symbol.
fn letter_eq(a: Letter, b: Letter) -> (r: bool)
    ensures
        r == (a == b),
{
    a == b
}

} // verus!
