use wordle_solver::evaluator::{choose_best, count_admitted, evaluate, score_guess, Recommendation};
use wordle_solver::mask::{Mark, WordMask, ALL_ALLOWED};
use wordle_solver::solver::{play, PlayResult, Solver, TurnOutcome};
use wordle_solver::word::{Word, WordError};

fn w(s: &str) -> Word<5> {
    Word::<5>::new(s).unwrap()
}

fn words(list: &[&str]) -> Vec<Word<5>> {
    list.iter().map(|s| w(s)).collect()
}

fn bit(c: char) -> u32 {
    1u32 << (c as u32 - 'a' as u32)
}

#[test]
fn encode_sets_one_bit_per_letter() {
    let word = w("crane");
    assert_eq!(word.characters, [bit('c'), bit('r'), bit('a'), bit('n'), bit('e')]);
    assert_eq!(word.all_chars, bit('c') | bit('r') | bit('a') | bit('n') | bit('e'));
}

#[test]
fn aggregate_ignores_repeats() {
    let word = w("geese");
    assert_eq!(word.all_chars, bit('g') | bit('e') | bit('s'));
}

#[test]
fn decode_inverts_encode() {
    for s in ["crane", "slate", "zebra", "aaaaa", "zzzzz", "fuzzy"] {
        assert_eq!(w(s).to_text(), s);
    }
}

#[test]
fn encode_rejects_non_ascii() {
    assert_eq!(Word::<5>::new("cran\u{e9}").unwrap_err(), WordError::NotAscii);
}

#[test]
fn encode_rejects_wrong_length() {
    assert_eq!(Word::<5>::new("cran").unwrap_err(), WordError::WrongLength);
    assert_eq!(Word::<5>::new("cranes").unwrap_err(), WordError::WrongLength);
    assert_eq!(Word::<5>::new("").unwrap_err(), WordError::WrongLength);
}

#[test]
fn encode_rejects_non_letters() {
    assert_eq!(Word::<5>::new("Crane").unwrap_err(), WordError::InvalidLetter);
    assert_eq!(Word::<5>::new("cr4ne").unwrap_err(), WordError::InvalidLetter);
    // the character just past 'z'
    assert_eq!(Word::<5>::new("cran{").unwrap_err(), WordError::InvalidLetter);
    assert_eq!(Word::<5>::new("cran`").unwrap_err(), WordError::InvalidLetter);
}

#[test]
fn same_word_compares_letters() {
    assert!(w("crane").same_word(&w("crane")));
    assert!(!w("crane").same_word(&w("crate")));
}

#[test]
fn fresh_mask_admits_everything() {
    let mask = WordMask::<5>::new();
    assert_eq!(mask.char_mask, [ALL_ALLOWED; 5]);
    assert_eq!(mask.positive_mask, 0);
    assert_eq!(mask.negative_mask, 0);
    for s in ["crane", "zzzzz", "aaaaa"] {
        assert!(mask.filter_word(&w(s)));
    }
}

#[test]
fn apply_guess_classifies_each_letter() {
    // crane against trace: c misplaced, r and a exact, n absent, e exact
    let mut mask = WordMask::<5>::new();
    mask.apply_guess(&w("crane"), &w("trace"));
    assert_eq!(mask.char_mask[0], ALL_ALLOWED & !bit('c'));
    assert_eq!(mask.char_mask[1], bit('r'));
    assert_eq!(mask.char_mask[2], bit('a'));
    assert_eq!(mask.char_mask[3], ALL_ALLOWED);
    assert_eq!(mask.char_mask[4], bit('e'));
    assert_eq!(mask.positive_mask, bit('c') | bit('r') | bit('a') | bit('e'));
    assert_eq!(mask.negative_mask, bit('n'));
    assert!(mask.filter_word(&w("trace")));
    assert!(mask.filter_word(&w("grace")));
    assert!(!mask.filter_word(&w("crane")));
    assert!(!mask.filter_word(&w("slate")));
}

#[test]
fn new_from_guess_matches_apply_guess() {
    let a = WordMask::<5>::new_from_guess(&w("slate"), &w("place"));
    let mut b = WordMask::<5>::new();
    b.apply_guess(&w("slate"), &w("place"));
    assert_eq!(a.char_mask, b.char_mask);
    assert_eq!(a.positive_mask, b.positive_mask);
    assert_eq!(a.negative_mask, b.negative_mask);
}

#[test]
fn self_guess_admits_only_the_answer() {
    let mut mask = WordMask::<5>::new();
    mask.apply_guess(&w("trace"), &w("trace"));
    for s in ["crane", "slate", "place", "grace", "react", "caret"] {
        assert!(!mask.filter_word(&w(s)));
    }
    assert!(mask.filter_word(&w("trace")));
}

#[test]
fn masks_only_tighten() {
    let mut mask = WordMask::<5>::new();
    let steps = [("crane", "trace"), ("slate", "trace"), ("place", "trace")];
    for (g, a) in steps {
        let before = mask;
        mask.apply_guess(&w(g), &w(a));
        assert_eq!(mask.positive_mask & before.positive_mask, before.positive_mask);
        assert_eq!(mask.negative_mask & before.negative_mask, before.negative_mask);
        for i in 0..5 {
            assert_eq!(mask.char_mask[i] & before.char_mask[i], mask.char_mask[i]);
        }
    }
    let before = mask;
    assert!(mask.apply_input("t!r!a!c!e!"));
    for i in 0..5 {
        assert_eq!(mask.char_mask[i] & before.char_mask[i], mask.char_mask[i]);
    }
}

#[test]
fn excluded_word_stays_excluded() {
    let mut mask = WordMask::<5>::new();
    mask.apply_guess(&w("crane"), &w("trace"));
    assert!(!mask.filter_word(&w("slate")));
    mask.apply_guess(&w("place"), &w("trace"));
    assert!(!mask.filter_word(&w("slate")));
    assert!(mask.apply_input("ghost"));
    assert!(!mask.filter_word(&w("slate")));
}

#[test]
fn apply_input_reads_markers() {
    let mut typed = WordMask::<5>::new();
    assert!(typed.apply_input("c?r!a!ne!"));
    let mut oracle = WordMask::<5>::new();
    oracle.apply_guess(&w("crane"), &w("trace"));
    assert_eq!(typed.char_mask, oracle.char_mask);
    assert_eq!(typed.positive_mask, oracle.positive_mask);
    assert_eq!(typed.negative_mask, oracle.negative_mask);
}

#[test]
fn apply_input_rejects_digit_and_keeps_mask() {
    let mut mask = WordMask::<5>::new();
    mask.apply_guess(&w("crane"), &w("trace"));
    let before = mask;
    assert!(!mask.apply_input("sl4te"));
    assert_eq!(mask.char_mask, before.char_mask);
    assert_eq!(mask.positive_mask, before.positive_mask);
    assert_eq!(mask.negative_mask, before.negative_mask);
}

#[test]
fn apply_input_rejects_malformed_lines() {
    let mut mask = WordMask::<5>::new();
    let before = mask;
    for bad in ["", "!crane", "cr!!ane", "cran", "cranes", "cr\u{e9}ne", "c ane", "CRANE"] {
        assert!(!mask.apply_input(bad), "accepted {:?}", bad);
        assert_eq!(mask.char_mask, before.char_mask);
        assert_eq!(mask.positive_mask, before.positive_mask);
        assert_eq!(mask.negative_mask, before.negative_mask);
    }
}

#[test]
fn apply_input_rejects_exact_on_locked_position() {
    let mut mask = WordMask::<5>::new();
    assert!(mask.apply_input("c!rane"));
    let before = mask;
    assert!(!mask.apply_input("t!race"));
    assert_eq!(mask.char_mask, before.char_mask);
    assert_eq!(mask.positive_mask, before.positive_mask);
    assert_eq!(mask.negative_mask, before.negative_mask);
    assert!(mask.apply_input("c!race"));
}

#[test]
fn mark_kinds_are_distinct() {
    assert_ne!(Mark::Exact, Mark::Misplaced);
    assert_ne!(Mark::Misplaced, Mark::Absent);
}

#[test]
fn count_admitted_counts_consistent_words() {
    let cands = words(&["crane", "slate", "trace", "grace"]);
    let mut mask = WordMask::<5>::new();
    assert_eq!(count_admitted(&mask, &cands), 4);
    mask.apply_guess(&w("crane"), &w("trace"));
    assert_eq!(count_admitted(&mask, &cands), 2);
}

#[test]
fn score_of_two_candidates() {
    // crane as answer leaves only crane; slate as answer leaves only slate
    let cands = words(&["crane", "slate"]);
    let mask = WordMask::<5>::new();
    assert_eq!(score_guess(&mask, &w("crane"), &cands), 2);
    // fuzzy tells nothing: both stay under either answer
    assert_eq!(score_guess(&mask, &w("fuzzy"), &cands), 4);
}

#[test]
fn score_of_answer_against_itself() {
    let cands = words(&["crane", "slate", "trace", "place", "grace"]);
    for a in &cands {
        let mut mask = WordMask::<5>::new();
        mask.apply_guess(a, a);
        assert_eq!(count_admitted(&mask, &cands), 1);
    }
}

#[test]
fn choose_best_takes_leftmost_smallest_positive() {
    let r = choose_best(&vec![0, 5, 3, 3, 4]).unwrap();
    assert_eq!(r, Recommendation { best: 2, best_score: 3, runner_up: Some(1) });
    assert_eq!(choose_best(&vec![0, 0]), None);
    assert_eq!(choose_best(&vec![]), None);
    let r = choose_best(&vec![7]).unwrap();
    assert_eq!(r, Recommendation { best: 0, best_score: 7, runner_up: None });
}

#[test]
fn evaluate_recommends_lowest_score() {
    let cands = words(&["crane", "slate"]);
    let guesses = words(&["fuzzy", "crane", "slate"]);
    let mask = WordMask::<5>::new();
    let r = evaluate(&mask, &cands, &guesses).unwrap();
    assert_eq!(r, Recommendation { best: 1, best_score: 2, runner_up: Some(0) });
}

#[test]
fn evaluate_without_guesses() {
    let cands = words(&["crane"]);
    let mask = WordMask::<5>::new();
    assert_eq!(evaluate(&mask, &cands, &vec![]), None);
}

#[test]
fn oracle_turn_solves_on_exact_guess() {
    let mut solver = Solver::new(words(&["crane", "trace"]));
    assert_eq!(solver.apply_oracle(&w("trace"), &w("trace")), TurnOutcome::Solved);
    assert_eq!(solver.candidates.len(), 2);
}

#[test]
fn oracle_turn_prunes_candidates() {
    let mut solver = Solver::new(words(&["crane", "slate", "trace", "grace", "place"]));
    assert_eq!(solver.apply_oracle(&w("crane"), &w("trace")), TurnOutcome::Continue);
    let left: Vec<String> = solver.candidates.iter().map(|c| c.to_text()).collect();
    assert_eq!(left, vec!["trace".to_string(), "grace".to_string()]);
}

#[test]
fn oracle_turn_solves_when_one_left() {
    let mut solver = Solver::new(words(&["crane", "slate", "trace"]));
    assert_eq!(solver.apply_oracle(&w("crane"), &w("trace")), TurnOutcome::Solved);
    assert_eq!(solver.candidates.len(), 1);
    assert_eq!(solver.candidates[0].to_text(), "trace");
}

#[test]
fn oracle_turn_reports_inconsistency() {
    let mut solver = Solver::new(words(&["grace", "slate"]));
    assert_eq!(solver.apply_oracle(&w("crane"), &w("trace")), TurnOutcome::Exhausted);
}

#[test]
fn feedback_turn_rejects_malformed_input() {
    let mut solver = Solver::new(words(&["crane", "slate", "trace"]));
    assert!(!solver.apply_feedback("cr4ne"));
    assert_eq!(solver.candidates.len(), 3);
    assert_eq!(solver.mask.char_mask, [ALL_ALLOWED; 5]);
    assert_eq!(solver.mask.positive_mask, 0);
    assert_eq!(solver.mask.negative_mask, 0);
}

#[test]
fn feedback_turn_prunes() {
    let mut solver = Solver::new(words(&["crane", "slate", "trace"]));
    assert!(solver.apply_feedback("c?r!a!ne!"));
    assert_eq!(solver.candidates.len(), 1);
    assert_eq!(solver.candidates[0].to_text(), "trace");
}

#[test]
fn self_play_small_vocabulary() {
    let vocab = words(&["crane", "slate", "trace", "place"]);
    match play(&vocab, &vocab, &w("trace"), 10) {
        PlayResult::Solved(t) => assert!(t <= 3, "took {} turns", t),
        other => panic!("not solved: {:?}", other),
    }
}

#[test]
fn self_play_never_inconsistent() {
    let vocab = words(&[
        "crane", "slate", "trace", "place", "grace", "brace", "react", "caret", "cater", "spare",
        "shear", "stare", "tears", "rates", "aster", "fuzzy", "jazzy", "geese", "eerie", "llama",
    ]);
    let mut guesses = vocab.clone();
    guesses.extend(words(&["adieu", "pious", "ghost"]));
    for actual in &vocab {
        let r = play(&vocab, &guesses, actual, 30);
        assert!(matches!(r, PlayResult::Solved(_)), "{} gave {:?}", actual.to_text(), r);
    }
}

#[test]
fn self_play_answer_outside_vocabulary() {
    let vocab = words(&["grace", "slate"]);
    let guesses = words(&["crane"]);
    assert_eq!(play(&vocab, &guesses, &w("trace"), 10), PlayResult::Exhausted);
}

#[test]
fn self_play_turn_budget() {
    let vocab = words(&["crane", "slate", "trace", "place"]);
    assert_eq!(play(&vocab, &vocab, &w("trace"), 0), PlayResult::OutOfTurns);
}

#[test]
fn describe_lists_known_letters() {
    let mut mask = WordMask::<1>::new();
    assert_eq!(
        mask.describe(),
        "Chars: a,b,c,d,e,f,g,h,i,j,k,l,m,n,o,p,q,r,s,t,u,v,w,x,y,z, | \nPositive: \nNegative: "
    );
    assert!(mask.apply_input("q!"));
    assert_eq!(mask.describe(), "Chars: q, | \nPositive: q,\nNegative: ");
    let mut two = WordMask::<2>::new();
    assert!(two.apply_input("ab?"));
    assert_eq!(
        two.describe(),
        "Chars: a,b,c,d,e,f,g,h,i,j,k,l,m,n,o,p,q,r,s,t,u,v,w,x,y,z, | a,c,d,e,f,g,h,i,j,k,l,m,n,o,p,q,r,s,t,u,v,w,x,y,z, | \nPositive: b,\nNegative: a,"
    );
}

#[test]
fn single_letter_words() {
    let a = Word::<1>::new("x").unwrap();
    assert_eq!(a.to_text(), "x");
    assert_eq!(Word::<1>::new("xy").unwrap_err(), WordError::WrongLength);
}

#[test]
fn apply_input_rejects_misplaced_on_locked_position() {
    let mut mask = WordMask::<1>::new();
    assert!(mask.apply_input("c!"));
    let before = mask;
    assert!(!mask.apply_input("t?"));
    assert_eq!(mask.char_mask, before.char_mask);
    assert_eq!(mask.positive_mask, before.positive_mask);
    assert_eq!(mask.negative_mask, before.negative_mask);
    // an unmarked letter there is still taken
    assert!(mask.apply_input("t"));
    assert_eq!(mask.char_mask, [bit('c')]);
    assert_eq!(mask.negative_mask, bit('t'));
}

#[test]
fn apply_input_accepts_exact_on_unlocked_position() {
    let mut mask = WordMask::<1>::new();
    assert!(mask.apply_input("c?"));
    assert_eq!(mask.char_mask, [ALL_ALLOWED & !bit('c')]);
    assert!(mask.apply_input("c!"));
    assert_eq!(mask.char_mask, [0]);
    assert_eq!(mask.positive_mask, bit('c'));
    assert_eq!(mask.negative_mask, 0);
}
