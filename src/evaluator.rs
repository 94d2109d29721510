use vstd::prelude::*;
use rayon::iter::{IndexedParallelIterator, IntoParallelRefIterator, ParallelIterator};
use crate::mask::{lemma_answer_stays_admitted, lemma_self_guess_pins_word, MaskModel, WordMask};
use crate::word::Word;

verus! {

/// How many of `cands` the mask `m` admits.
pub open spec fn admitted_count<const N: usize>(m: MaskModel, cands: Seq<Word<N>>) -> nat
    decreases cands.len(),
{
    if cands.len() == 0 {
        0
    } else {
        admitted_count(m, cands.drop_last()) + if m.admits(
            cands.last().bits(),
            cands.last().all_chars,
        ) {
            1nat
        } else {
            0nat
        }
    }
}

/// The candidates left over the first `k` hypothetical answers, summed, when
/// `guess` is played from knowledge `m`.
pub open spec fn score_upto<const N: usize>(
    m: MaskModel,
    guess: Word<N>,
    cands: Seq<Word<N>>,
    k: nat,
) -> nat
    decreases k,
{
    if k == 0 {
        0
    } else {
        score_upto(m, guess, cands, (k - 1) as nat) + admitted_count(
            m.guessed(guess.bits(), cands[k - 1].bits()),
            cands,
        )
    }
}

/// The score of `guess`: over every candidate taken as the answer, how many
/// candidates the resulting mask still admits, summed. Lower is better.
pub open spec fn score<const N: usize>(m: MaskModel, guess: Word<N>, cands: Seq<Word<N>>) -> nat {
    score_upto(m, guess, cands, cands.len())
}

/// The scores of all `guesses`, in order.
pub open spec fn scores<const N: usize>(
    m: MaskModel,
    guesses: Seq<Word<N>>,
    cands: Seq<Word<N>>,
) -> Seq<nat> {
    Seq::new(guesses.len(), |i: int| score(m, guesses[i], cands))
}

/// The best and runner-up indices of a left-to-right scan of `s`: a positive
/// score strictly below the best so far becomes the best, and the former best
/// becomes the runner-up. Zero scores are passed over.
pub open spec fn pick(s: Seq<nat>) -> (Option<int>, Option<int>)
    decreases s.len(),
{
    if s.len() == 0 {
        (None, None)
    } else {
        let prev = pick(s.drop_last());
        let k = s.len() - 1;
        if s[k] > 0 && (prev.0 is None || s[k] < s[prev.0->Some_0]) {
            (Some(k), prev.0)
        } else {
            prev
        }
    }
}

/// The scan's best is the leftmost smallest positive score, and there is one
/// exactly when some score is positive.
pub proof fn lemma_pick_is_leftmost_min(s: Seq<nat>)
    ensures
        pick(s).0 is None <==> forall|i: int| 0 <= i < s.len() ==> s[i] == 0,
        pick(s).0 is Some ==> {
            let b = pick(s).0->Some_0;
            &&& 0 <= b < s.len()
            &&& s[b] > 0
            &&& forall|i: int| 0 <= i < s.len() && s[i] > 0 ==> s[b] <= s[i]
            &&& forall|i: int| 0 <= i < b && s[i] > 0 ==> s[b] < s[i]
        },
        pick(s).1 is Some ==> 0 <= pick(s).1->Some_0 < s.len(),
    decreases s.len(),
{
    if s.len() > 0 {
        let t = s.drop_last();
        lemma_pick_is_leftmost_min(t);
        assert forall|i: int| 0 <= i < t.len() implies t[i] == s[i] by {}
    }
}

/// How many of `cands` have the same letters as `a`.
pub open spec fn same_count<const N: usize>(a: Word<N>, cands: Seq<Word<N>>) -> nat
    decreases cands.len(),
{
    if cands.len() == 0 {
        0
    } else {
        same_count(a, cands.drop_last()) + if cands.last().bits() == a.bits() {
            1nat
        } else {
            0nat
        }
    }
}

/// When the answer itself is played as the guess, the only candidates left
/// are the copies of the answer.
pub proof fn lemma_self_guess_leaves_only_answer<const N: usize>(
    m: MaskModel,
    a: Word<N>,
    cands: Seq<Word<N>>,
)
    requires
        a.wf(),
        m.cells.len() == N,
        m.admits(a.bits(), a.all_chars),
        forall|i: int| 0 <= i < cands.len() ==> (#[trigger] cands[i]).wf(),
    ensures
        admitted_count(m.guessed(a.bits(), a.bits()), cands) == same_count(a, cands),
    decreases cands.len(),
{
    if cands.len() > 0 {
        let t = cands.drop_last();
        assert forall|i: int| 0 <= i < t.len() implies (#[trigger] t[i]).wf() by {
            assert(t[i] == cands[i]);
        }
        lemma_self_guess_leaves_only_answer(m, a, t);
        let c = cands.last();
        assert(cands[cands.len() - 1].wf());
        let next = m.guessed(a.bits(), a.bits());
        if next.admits(c.bits(), c.all_chars) {
            lemma_self_guess_pins_word(m, a, c);
        }
        if c.bits() == a.bits() {
            lemma_answer_stays_admitted(m, a, a);
        }
    }
}

/// The turn's recommendation: indices into the guess list.
#[derive(Clone, Copy, Debug, PartialEq, Eq, Structural)]
pub struct Recommendation {
    pub best: usize,
    pub best_score: usize,
    pub runner_up: Option<usize>,
}

/// Counts the candidates that `mask` admits.
pub fn count_admitted<const N: usize>(mask: &WordMask<N>, cands: &Vec<Word<N>>) -> (r: usize)
    ensures
        r == admitted_count(mask@, cands@),
{
    let mut count: usize = 0;
    let mut i: usize = 0;
    while i < cands.len()
        invariant
            0 <= i <= cands.len(),
            count <= i,
            count == admitted_count(mask@, cands@.subrange(0, i as int)),
        decreases cands.len() - i,
    {
        assert(cands@.subrange(0, i + 1).drop_last() =~= cands@.subrange(0, i as int));
        if mask.filter_word(&cands[i]) {
            count = count + 1;
        }
        i = i + 1;
    }
    assert(cands@.subrange(0, cands.len() as int) =~= cands@);
    count
}

proof fn lemma_admitted_count_bound<const N: usize>(m: MaskModel, cands: Seq<Word<N>>)
    ensures
        admitted_count(m, cands) <= cands.len(),
    decreases cands.len(),
{
    if cands.len() > 0 {
        lemma_admitted_count_bound(m, cands.drop_last());
    }
}

/// Scores `guess` against the candidates under `mask` (see `score`).
pub fn score_guess<const N: usize>(mask: &WordMask<N>, guess: &Word<N>, cands: &Vec<Word<N>>) -> (r:
    usize)
    requires
        cands@.len() * cands@.len() <= usize::MAX,
    ensures
        r == score(mask@, *guess, cands@),
{
    let n = cands.len();
    let mut total: usize = 0;
    let mut k: usize = 0;
    while k < n
        invariant
            n == cands@.len(),
            n * n <= usize::MAX,
            0 <= k <= n,
            total == score_upto(mask@, *guess, cands@, k as nat),
            total <= k * n,
        decreases n - k,
    {
        let mut hypothesis = *mask;
        hypothesis.apply_guess(guess, &cands[k]);
        let c = count_admitted(&hypothesis, cands);
        proof {
            lemma_admitted_count_bound(hypothesis@, cands@);
            assert(total + c <= (k + 1) * n) by (nonlinear_arith)
                requires
                    total <= k * n,
                    c <= n,
            ;
            assert((k + 1) * n <= n * n) by (nonlinear_arith)
                requires
                    k < n,
            ;
        }
        total = total + c;
        k = k + 1;
    }
    total
}

/// Relies on rayon's `par_iter().map(..).collect_into_vec(..)` over a slice:
/// the vector is cleared, then item `i` of the output is the mapped item `i`
/// of the input. The map calls the verified `score_guess` on each guess.
#[verifier::external_body]
fn score_all<const N: usize>(mask: &WordMask<N>, guesses: &Vec<Word<N>>, cands: &Vec<Word<N>>) -> (r:
    Vec<usize>)
    requires
        cands@.len() * cands@.len() <= usize::MAX,
    ensures
        r@.len() == guesses@.len(),
        forall|i: int| 0 <= i < guesses@.len() ==> r@[i] == score(mask@, guesses@[i], cands@),
{
    let mut out = Vec::new();
    guesses.par_iter().map(|g| score_guess(mask, g, cands)).collect_into_vec(&mut out);
    out
}

/// Picks the best and runner-up from a list of scores (see `pick`).
pub fn choose_best(scores: &Vec<usize>) -> (r: Option<Recommendation>)
    ensures
        r is None <==> pick(scores@.map_values(|x: usize| x as nat)).0 is None,
        r is Some ==> {
            let p = pick(scores@.map_values(|x: usize| x as nat));
            &&& p.0 == Some(r->Some_0.best as int)
            &&& r->Some_0.best_score == scores@[r->Some_0.best as int]
            &&& p.1 == match r->Some_0.runner_up {
                Some(j) => Some(j as int),
                None => None::<int>,
            }
        },
{
    let ghost s = scores@.map_values(|x: usize| x as nat);
    let mut best: Option<usize> = None;
    let mut best_score: usize = 0;
    let mut runner_up: Option<usize> = None;
    let mut i: usize = 0;
    while i < scores.len()
        invariant
            s == scores@.map_values(|x: usize| x as nat),
            0 <= i <= scores.len(),
            pick(s.subrange(0, i as int)).0 == match best {
                Some(j) => Some(j as int),
                None => None::<int>,
            },
            pick(s.subrange(0, i as int)).1 == match runner_up {
                Some(j) => Some(j as int),
                None => None::<int>,
            },
            best is Some ==> best->Some_0 < i && best_score == scores@[best->Some_0 as int],
        decreases scores.len() - i,
    {
        assert(s.subrange(0, i + 1).drop_last() =~= s.subrange(0, i as int));
        let x = scores[i];
        if x > 0 && (best.is_none() || x < best_score) {
            runner_up = best;
            best = Some(i);
            best_score = x;
        }
        i = i + 1;
    }
    assert(s.subrange(0, scores.len() as int) =~= s);
    match best {
        Some(b) => Some(Recommendation { best: b, best_score, runner_up }),
        None => None,
    }
}

/// Scores every guess against the candidates, in parallel, and recommends
/// the guess with the smallest positive score, the leftmost among equals.
pub fn evaluate<const N: usize>(
    mask: &WordMask<N>,
    cands: &Vec<Word<N>>,
    guesses: &Vec<Word<N>>,
) -> (r: Option<Recommendation>)
    requires
        cands@.len() * cands@.len() <= usize::MAX,
    ensures
        ({
            let s = scores(mask@, guesses@, cands@);
            &&& r is None <==> forall|i: int| 0 <= i < s.len() ==> s[i] == 0
            &&& r is Some ==> {
                let b = r->Some_0.best as int;
                &&& 0 <= b < s.len()
                &&& r->Some_0.best_score == s[b]
                &&& s[b] > 0
                &&& forall|i: int| 0 <= i < s.len() && s[i] > 0 ==> s[b] <= s[i]
                &&& forall|i: int| 0 <= i < b && s[i] > 0 ==> s[b] < s[i]
                &&& pick(s).0 == Some(b)
                &&& pick(s).1 == match r->Some_0.runner_up {
                    Some(j) => Some(j as int),
                    None => None::<int>,
                }
            }
        }),
{
    let all = score_all(mask, guesses, cands);
    let ghost s = scores(mask@, guesses@, cands@);
    assert(all@.map_values(|x: usize| x as nat) =~= s);
    proof {
        lemma_pick_is_leftmost_min(s);
    }
    choose_best(&all)
}

} // verus!
