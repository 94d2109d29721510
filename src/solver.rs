use vstd::prelude::*;
use crate::evaluator::{evaluate, lemma_pick_is_leftmost_min, pick, scores};
use crate::mask::{
    empty_model, feedback_bits, lemma_empty_admits_word, feedback_marks, lemma_answer_stays_admitted,
    parse_feedback, MaskModel, WordMask,
};
use crate::word::Word;

verus! {

/// What one turn of feedback leads to.
#[derive(Clone, Copy, Debug, PartialEq, Eq, Structural)]
pub enum TurnOutcome {
    /// More guesses are needed.
    Continue,
    /// The guess was the answer, or only the answer is left.
    Solved,
    /// The one candidate left is not the answer: the mask or the
    /// vocabulary is inconsistent.
    Exhausted,
}

/// How a self-played attempt ended.
#[derive(Clone, Copy, Debug, PartialEq, Eq, Structural)]
pub enum PlayResult {
    /// Solved after this many turns.
    Solved(usize),
    /// The candidates ran out, or collapsed to a word that is not the answer.
    Exhausted,
    /// The turn budget was spent first.
    OutOfTurns,
}

/// The words of `s` that `m` admits, in their order.
pub open spec fn kept<const N: usize>(m: MaskModel, s: Seq<Word<N>>) -> Seq<Word<N>>
    decreases s.len(),
{
    if s.len() == 0 {
        s
    } else if m.admits(s.last().bits(), s.last().all_chars) {
        kept(m, s.drop_last()).push(s.last())
    } else {
        kept(m, s.drop_last())
    }
}

/// Pruning keeps only words of the list it prunes, keeps every admitted one,
/// and never grows the list.
pub proof fn lemma_kept<const N: usize>(m: MaskModel, s: Seq<Word<N>>)
    ensures
        kept(m, s).len() <= s.len(),
        forall|j: int| 0 <= j < kept(m, s).len() ==> s.contains(#[trigger] kept(m, s)[j]),
        forall|i: int|
            0 <= i < s.len() && m.admits(s[i].bits(), s[i].all_chars) ==> kept(m, s).contains(
                #[trigger] s[i],
            ),
    decreases s.len(),
{
    if s.len() > 0 {
        let t = s.drop_last();
        lemma_kept(m, t);
        let k = kept(m, s);
        assert forall|j: int| 0 <= j < k.len() implies s.contains(#[trigger] k[j]) by {
            if j < kept(m, t).len() {
                assert(k[j] == kept(m, t)[j]);
                let x = choose|x: int| 0 <= x < t.len() && t[x] == k[j];
                assert(s[x] == t[x]);
            } else {
                assert(s[s.len() - 1] == k[j]);
            }
        }
        assert forall|i: int|
            0 <= i < s.len() && m.admits(s[i].bits(), s[i].all_chars) implies k.contains(
            #[trigger] s[i],
        ) by {
            if i < t.len() {
                assert(t[i] == s[i]);
                assert(kept(m, t).contains(t[i]));
                let x = choose|x: int| 0 <= x < kept(m, t).len() && kept(m, t)[x] == t[i];
                assert(k[x] == kept(m, t)[x]);
            } else {
                assert(k[k.len() - 1] == s[i]);
            }
        }
    }
}

/// One puzzle attempt: what is known, and the answers still possible.
pub struct Solver<const N: usize> {
    pub mask: WordMask<N>,
    pub candidates: Vec<Word<N>>,
}

impl<const N: usize> Solver<N> {
    /// Every candidate is a well-formed word.
    pub open spec fn wf(&self) -> bool {
        forall|i: int| 0 <= i < self.candidates@.len() ==> (#[trigger] self.candidates@[i]).wf()
    }

    /// The attempt is on track for `actual`: the mask admits it and a
    /// candidate spells it.
    pub open spec fn tracks(&self, actual: Word<N>) -> bool {
        &&& actual.wf()
        &&& self.wf()
        &&& self.mask@.admits(actual.bits(), actual.all_chars)
        &&& exists|i: int|
            0 <= i < self.candidates@.len() && (#[trigger] self.candidates@[i]).bits()
                == actual.bits()
    }

    /// A fresh attempt: nothing known, every answer possible.
    pub fn new(answers: Vec<Word<N>>) -> (r: Solver<N>)
        ensures
            r.mask@ == empty_model(N as nat),
            r.candidates@ == answers@,
    {
        Solver { mask: WordMask::new(), candidates: answers }
    }

    /// Drops the candidates that the mask no longer admits, keeping the order.
    fn prune(&mut self)
        ensures
            final(self).mask == old(self).mask,
            final(self).candidates@ == kept(old(self).mask@, old(self).candidates@),
    {
        let mut out: Vec<Word<N>> = Vec::new();
        let mut i: usize = 0;
        while i < self.candidates.len()
            invariant
                0 <= i <= self.candidates.len(),
                self.mask == old(self).mask,
                self.candidates@ == old(self).candidates@,
                out@ == kept(self.mask@, self.candidates@.subrange(0, i as int)),
            decreases self.candidates.len() - i,
        {
            assert(self.candidates@.subrange(0, i + 1).drop_last() =~= self.candidates@.subrange(
                0,
                i as int,
            ));
            let w = self.candidates[i];
            if self.mask.filter_word(&w) {
                out.push(w);
            }
            i = i + 1;
        }
        assert(self.candidates@.subrange(0, self.candidates.len() as int) =~= self.candidates@);
        self.candidates = out;
    }

    /// Feedback from an oracle that knows the answer `actual`: when `guess`
    /// is not the answer, narrow the mask, prune, and decide the outcome.
    pub fn apply_oracle(&mut self, guess: &Word<N>, actual: &Word<N>) -> (r: TurnOutcome)
        ensures
            guess.bits() == actual.bits() ==> r == TurnOutcome::Solved && final(self).mask
                == old(self).mask && final(self).candidates@ == old(self).candidates@,
            guess.bits() != actual.bits() ==> {
                &&& final(self).mask@ == old(self).mask@.guessed(guess.bits(), actual.bits())
                &&& final(self).candidates@ == kept(final(self).mask@, old(self).candidates@)
                &&& r == if final(self).candidates@.len() == 1 {
                    if final(self).candidates@[0].bits() == actual.bits() {
                        TurnOutcome::Solved
                    } else {
                        TurnOutcome::Exhausted
                    }
                } else {
                    TurnOutcome::Continue
                }
            },
            guess.wf() && old(self).tracks(*actual) ==> final(self).tracks(*actual) && r
                != TurnOutcome::Exhausted,
            final(self).candidates@.len() <= old(self).candidates@.len(),
    {
        if guess.same_word(actual) {
            return TurnOutcome::Solved;
        }
        self.mask.apply_guess(guess, actual);
        let ghost before = old(self).candidates@;
        self.prune();
        proof {
            lemma_kept(self.mask@, before);
            if guess.wf() && old(self).tracks(*actual) {
                lemma_answer_stays_admitted(old(self).mask@, *guess, *actual);
                let i = choose|i: int|
                    0 <= i < before.len() && (#[trigger] before[i]).bits() == actual.bits();
                assert(before[i].wf());
                assert(before[i].all_chars == actual.all_chars);
                assert(self.candidates@.contains(before[i]));
                assert forall|j: int| 0 <= j < self.candidates@.len() implies (
                #[trigger] self.candidates@[j]).wf() by {
                    let x = choose|x: int| 0 <= x < before.len() && before[x]
                        == self.candidates@[j];
                    assert(before[x].wf());
                }
            }
        }
        if self.candidates.len() == 1 {
            if self.candidates[0].same_word(actual) {
                TurnOutcome::Solved
            } else {
                TurnOutcome::Exhausted
            }
        } else {
            TurnOutcome::Continue
        }
    }

    /// Feedback typed by a person (see `WordMask::apply_input`): when it is
    /// accepted, narrow the mask and prune; otherwise change nothing.
    pub fn apply_feedback(&mut self, input: &str) -> (r: bool)
        ensures
            r == old(self).mask@.accepts_feedback(input@),
            r ==> final(self).candidates@ == kept(final(self).mask@, old(self).candidates@),
            r ==> final(self).mask@ == old(self).mask@.updated(
                feedback_bits(parse_feedback(input@)->Some_0),
                feedback_marks(parse_feedback(input@)->Some_0),
            ),
            r ==> old(self).mask@.tightens_to(final(self).mask@),
            !r ==> final(self).mask == old(self).mask && final(self).candidates@ == old(
                self,
            ).candidates@,
    {
        if !self.mask.apply_input(input) {
            return false;
        }
        self.prune();
        true
    }
}

/// The guess a turn plays: the evaluator's best, or the first candidate when
/// no guess scores above zero.
pub open spec fn next_guess<const N: usize>(
    m: MaskModel,
    cands: Seq<Word<N>>,
    guesses: Seq<Word<N>>,
) -> Word<N> {
    match pick(scores(m, guesses, cands)).0 {
        Some(b) => guesses[b],
        None => cands[0],
    }
}

/// How self-play goes on from knowledge `m` and candidates `cands` after
/// `t` of at most `max` turns.
pub open spec fn play_from<const N: usize>(
    m: MaskModel,
    cands: Seq<Word<N>>,
    guesses: Seq<Word<N>>,
    actual: Word<N>,
    t: nat,
    max: nat,
) -> PlayResult
    decreases max - t,
{
    if t >= max {
        PlayResult::OutOfTurns
    } else if cands.len() == 0 {
        PlayResult::Exhausted
    } else {
        let guess = next_guess(m, cands, guesses);
        if guess.bits() == actual.bits() {
            PlayResult::Solved((t + 1) as usize)
        } else {
            let m2 = m.guessed(guess.bits(), actual.bits());
            let c2 = kept(m2, cands);
            if c2.len() == 1 {
                if c2[0].bits() == actual.bits() {
                    PlayResult::Solved((t + 2) as usize)
                } else {
                    PlayResult::Exhausted
                }
            } else {
                play_from(m2, c2, guesses, actual, t + 1, max)
            }
        }
    }
}

/// Plays one attempt against the known answer `actual`, at most `max_turns`
/// turns: each turn plays the evaluator's recommendation (the first
/// candidate when it has none) and applies the oracle's feedback.
pub fn play<const N: usize>(
    answers: &Vec<Word<N>>,
    guesses: &Vec<Word<N>>,
    actual: &Word<N>,
    max_turns: usize,
) -> (r: PlayResult)
    requires
        answers@.len() * answers@.len() <= usize::MAX,
        max_turns < usize::MAX,
    ensures
        ({
            &&& actual.wf()
            &&& forall|i: int| 0 <= i < guesses@.len() ==> (#[trigger] guesses@[i]).wf()
            &&& forall|i: int| 0 <= i < answers@.len() ==> (#[trigger] answers@[i]).wf()
            &&& exists|i: int|
                0 <= i < answers@.len() && (#[trigger] answers@[i]).bits() == actual.bits()
        }) ==> !(r is Exhausted),
        r == play_from(empty_model(N as nat), answers@, guesses@, *actual, 0, max_turns as nat),
        r matches PlayResult::Solved(t) ==> 1 <= t <= max_turns + 1,
{
    let mut solver = Solver::new(answers.clone());
    let ghost on_track = solver.tracks(*actual) && forall|i: int|
        0 <= i < guesses@.len() ==> (#[trigger] guesses@[i]).wf();
    proof {
        if actual.wf() {
            lemma_empty_admits_word(*actual);
        }
    }
    let mut turns: usize = 0;
    while turns < max_turns
        invariant
            turns <= max_turns < usize::MAX,
            solver.candidates@.len() <= answers@.len(),
            answers@.len() * answers@.len() <= usize::MAX,
            on_track ==> solver.tracks(*actual),
            on_track ==> forall|i: int| 0 <= i < guesses@.len() ==> (#[trigger] guesses@[i]).wf(),
            ({
                &&& actual.wf()
                &&& forall|i: int| 0 <= i < guesses@.len() ==> (#[trigger] guesses@[i]).wf()
                &&& forall|i: int| 0 <= i < answers@.len() ==> (#[trigger] answers@[i]).wf()
                &&& exists|i: int|
                    0 <= i < answers@.len() && (#[trigger] answers@[i]).bits() == actual.bits()
            }) ==> on_track,
            play_from(empty_model(N as nat), answers@, guesses@, *actual, 0, max_turns as nat)
                == play_from(solver.mask@, solver.candidates@, guesses@, *actual, turns as nat, max_turns as nat),
        decreases max_turns - turns,
    {
        let ghost (m0, c0) = (solver.mask@, solver.candidates@);
        turns = turns + 1;
        if solver.candidates.len() == 0 {
            return PlayResult::Exhausted;
        }
        proof {
            let (c, a) = (solver.candidates@.len(), answers@.len());
            assert(c * c <= a * a) by (nonlinear_arith)
                requires
                    c <= a,
            ;
        }
        proof {
            lemma_pick_is_leftmost_min(scores(m0, guesses@, c0));
        }
        let guess = match evaluate(&solver.mask, &solver.candidates, guesses) {
            Some(rec) => guesses[rec.best],
            None => solver.candidates[0],
        };
        assert(guess == next_guess(m0, c0, guesses@));
        proof {
            if on_track {
                assert(solver.candidates@[0].wf());
            }
        }
        match solver.apply_oracle(&guess, actual) {
            TurnOutcome::Solved => {
                if guess.same_word(actual) {
                    return PlayResult::Solved(turns);
                } else {
                    return PlayResult::Solved(turns + 1);
                }
            },
            TurnOutcome::Exhausted => {
                return PlayResult::Exhausted;
            },
            TurnOutcome::Continue => {},
        }
    }
    PlayResult::OutOfTurns
}

} // verus!
