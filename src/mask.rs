use vstd::prelude::*;
use vstd::string::StrSliceExecFns;
use vstd::string::StringExecFns;
use crate::word::{
    bit_index, is_letter, is_letter_bit, lemma_letter_bits_disjoint, letter_bit, letter_char, letter_text, union_of,
    Word, ALPHABET_LEN, FIRST_LETTER,
};

verus! {

/// Every letter of the alphabet, as a mask.
pub const ALL_ALLOWED: u32 = 0x03ff_ffff;

/// What feedback says of one guessed letter.
#[derive(Clone, Copy, Debug, PartialEq, Eq, Structural)]
pub enum Mark {
    /// The letter is at this position.
    Exact,
    /// The letter is in the word, elsewhere.
    Misplaced,
    /// The letter is not in the word.
    Absent,
}

/// What a constraint mask knows: the letters allowed at each position, the
/// letters known to be present, and those known to be absent.
pub ghost struct MaskModel {
    pub cells: Seq<u32>,
    pub positive: u32,
    pub negative: u32,
}

/// A cell after feedback `m` on the letter `bit` at its position.
pub open spec fn updated_cell(cell: u32, bit: u32, m: Mark) -> u32 {
    match m {
        Mark::Exact => cell & bit,
        Mark::Misplaced => cell & !bit,
        Mark::Absent => cell,
    }
}

/// Union of the first `n` letters whose mark is `Exact` or `Misplaced`.
pub open spec fn present_union(bits: Seq<u32>, marks: Seq<Mark>, n: nat) -> u32
    decreases n,
{
    if n == 0 {
        0
    } else if marks[n - 1] != Mark::Absent {
        present_union(bits, marks, (n - 1) as nat) | bits[n - 1]
    } else {
        present_union(bits, marks, (n - 1) as nat)
    }
}

/// Union of the first `n` letters whose mark is `Absent`.
pub open spec fn absent_union(bits: Seq<u32>, marks: Seq<Mark>, n: nat) -> u32
    decreases n,
{
    if n == 0 {
        0
    } else if marks[n - 1] == Mark::Absent {
        absent_union(bits, marks, (n - 1) as nat) | bits[n - 1]
    } else {
        absent_union(bits, marks, (n - 1) as nat)
    }
}

/// The feedback that comparing `guess` with `actual` letter by letter gives.
pub open spec fn classify(guess: Seq<u32>, actual: Seq<u32>) -> Seq<Mark> {
    Seq::new(
        guess.len(),
        |i: int|
            if guess[i] == actual[i] {
                Mark::Exact
            } else if actual.contains(guess[i]) {
                Mark::Misplaced
            } else {
                Mark::Absent
            },
    )
}

/// Reads annotated feedback: each lowercase letter may be followed by `!`
/// (exact) or `?` (misplaced); a letter with no marker is absent. `None` when
/// anything else stands where a letter is expected.
pub open spec fn parse_feedback(s: Seq<char>) -> Option<Seq<(char, Mark)>>
    decreases s.len(),
{
    if s.len() == 0 {
        Some(Seq::empty())
    } else if !is_letter(s[0]) {
        None
    } else if s.len() >= 2 && s[1] == '!' {
        prepend_feedback(seq![(s[0], Mark::Exact)], parse_feedback(s.skip(2)))
    } else if s.len() >= 2 && s[1] == '?' {
        prepend_feedback(seq![(s[0], Mark::Misplaced)], parse_feedback(s.skip(2)))
    } else {
        prepend_feedback(seq![(s[0], Mark::Absent)], parse_feedback(s.skip(1)))
    }
}

pub open spec fn prepend_feedback(
    head: Seq<(char, Mark)>,
    rest: Option<Seq<(char, Mark)>>,
) -> Option<Seq<(char, Mark)>> {
    match rest {
        Some(t) => Some(head + t),
        None => None,
    }
}

pub open spec fn feedback_bits(t: Seq<(char, Mark)>) -> Seq<u32> {
    t.map_values(|p: (char, Mark)| letter_bit(p.0))
}

pub open spec fn feedback_marks(t: Seq<(char, Mark)>) -> Seq<Mark> {
    t.map_values(|p: (char, Mark)| p.1)
}

/// A cell allows exactly one letter: its position is locked.
pub open spec fn is_locked(cell: u32) -> bool {
    cell != 0 && cell & ((cell - 1) as u32) == 0
}

impl MaskModel {
    /// `s` is feedback on one letter per cell that `self` can take: it
    /// parses, and no marker (`!` or `?`) stands on a position locked to a
    /// different letter.
    pub open spec fn accepts_feedback(self, s: Seq<char>) -> bool {
        match parse_feedback(s) {
            Some(t) => t.len() == self.cells.len() && forall|i: int|
                0 <= i < t.len() && t[i].1 != Mark::Absent ==> !(is_locked(
                    #[trigger] self.cells[i],
                ) && self.cells[i] != letter_bit(t[i].0)),
            None => false,
        }
    }

    /// The word with letter masks `bits` and letter union `all` is consistent
    /// with everything known.
    pub open spec fn admits(self, bits: Seq<u32>, all: u32) -> bool {
        &&& all & self.positive == self.positive
        &&& all & self.negative == 0
        &&& forall|i: int| 0 <= i < self.cells.len() ==> #[trigger] self.cells[i] & bits[i] != 0
    }

    /// The knowledge after feedback `marks` on the guessed letters `bits`.
    pub open spec fn updated(self, bits: Seq<u32>, marks: Seq<Mark>) -> MaskModel {
        MaskModel {
            cells: Seq::new(
                self.cells.len(),
                |i: int| updated_cell(self.cells[i], bits[i], marks[i]),
            ),
            positive: self.positive | present_union(bits, marks, self.cells.len()),
            negative: self.negative | absent_union(bits, marks, self.cells.len()),
        }
    }

    /// The knowledge after guessing `guess` when the answer is `actual`.
    pub open spec fn guessed(self, guess: Seq<u32>, actual: Seq<u32>) -> MaskModel {
        self.updated(guess, classify(guess, actual))
    }

    /// `next` knows at least as much as `self`: no set or cell has grown back.
    pub open spec fn tightens_to(self, next: MaskModel) -> bool {
        &&& next.cells.len() == self.cells.len()
        &&& next.positive & self.positive == self.positive
        &&& next.negative & self.negative == self.negative
        &&& forall|i: int|
            0 <= i < self.cells.len() ==> #[trigger] next.cells[i] & self.cells[i] == next.cells[i]
    }
}

/// Knowing nothing about a word of `n` letters.
pub open spec fn empty_model(n: nat) -> MaskModel {
    MaskModel { cells: Seq::new(n, |i: int| ALL_ALLOWED), positive: 0, negative: 0 }
}

proof fn lemma_or_zero(x: u32)
    ensures
        x | 0u32 == x,
{
    assert(x | 0u32 == x) by (bit_vector);
}

proof fn lemma_or_assoc(x: u32, y: u32, z: u32)
    ensures
        (x | y) | z == x | (y | z),
{
    assert((x | y) | z == x | (y | z)) by (bit_vector);
}

/// A mask that knows nothing admits every word.
pub proof fn lemma_empty_admits_word<const N: usize>(w: Word<N>)
    requires
        w.wf(),
    ensures
        empty_model(N as nat).admits(w.bits(), w.all_chars),
{
    let all = w.all_chars;
    assert(all & 0u32 == 0u32) by (bit_vector);
    assert forall|i: int| 0 <= i < N implies #[trigger] empty_model(N as nat).cells[i]
        & w.bits()[i] != 0 by {
        let k = bit_index(w.bits()[i]) as u32;
        assert(k < 26 ==> ALL_ALLOWED & (1u32 << k) != 0) by (bit_vector);
    }
}

/// Feedback only ever adds knowledge: the present and absent sets grow and
/// every cell shrinks.
pub proof fn lemma_update_tightens(m: MaskModel, bits: Seq<u32>, marks: Seq<Mark>)
    ensures
        m.tightens_to(m.updated(bits, marks)),
{
    let next = m.updated(bits, marks);
    let pu = present_union(bits, marks, m.cells.len());
    let au = absent_union(bits, marks, m.cells.len());
    let p = m.positive;
    let n = m.negative;
    assert((p | pu) & p == p) by (bit_vector);
    assert((n | au) & n == n) by (bit_vector);
    assert forall|i: int| 0 <= i < m.cells.len() implies #[trigger] next.cells[i] & m.cells[i]
        == next.cells[i] by {
        let c = m.cells[i];
        let b = bits[i];
        assert((c & b) & c == c & b) by (bit_vector);
        assert((c & !b) & c == c & !b) by (bit_vector);
        assert(c & c == c) by (bit_vector);
    }
}

/// Tightening composes: a run of updates tightens the mask it started from.
pub proof fn lemma_tightens_transitive(a: MaskModel, b: MaskModel, c: MaskModel)
    requires
        a.tightens_to(b),
        b.tightens_to(c),
    ensures
        a.tightens_to(c),
{
    let (ap, bp, cp) = (a.positive, b.positive, c.positive);
    let (an, bn, cn) = (a.negative, b.negative, c.negative);
    assert(bp & ap == ap && cp & bp == bp ==> cp & ap == ap) by (bit_vector);
    assert(bn & an == an && cn & bn == bn ==> cn & an == an) by (bit_vector);
    assert forall|i: int| 0 <= i < a.cells.len() implies #[trigger] c.cells[i] & a.cells[i]
        == c.cells[i] by {
        let (x, y, z) = (a.cells[i], b.cells[i], c.cells[i]);
        assert(y & x == y && z & y == z ==> z & x == z) by (bit_vector);
        assert(b.cells[i] & a.cells[i] == b.cells[i]);
        assert(c.cells[i] & b.cells[i] == c.cells[i]);
    }
}

/// A word that a mask excludes stays excluded by every tighter mask.
pub proof fn lemma_excluded_stays_excluded(m: MaskModel, next: MaskModel, bits: Seq<u32>, all: u32)
    requires
        m.tightens_to(next),
        !m.admits(bits, all),
    ensures
        !next.admits(bits, all),
{
    if next.admits(bits, all) {
        let (p, q) = (m.positive, next.positive);
        let (n, o) = (m.negative, next.negative);
        assert(all & q == q && q & p == p ==> all & p == p) by (bit_vector);
        assert(all & o == 0 && o & n == n ==> all & n == 0) by (bit_vector);
        assert forall|i: int| 0 <= i < m.cells.len() implies #[trigger] m.cells[i] & bits[i]
            != 0 by {
            let (c, d, w) = (m.cells[i], next.cells[i], bits[i]);
            assert(d & w != 0 && d & c == d ==> c & w != 0) by (bit_vector);
            assert(next.cells[i] & bits[i] != 0);
            assert(next.cells[i] & m.cells[i] == next.cells[i]);
        }
    }
}

/// After guessing the answer itself, only the answer's own letters, position
/// by position, stay consistent.
pub proof fn lemma_self_guess_pins_word<const N: usize>(m: MaskModel, a: Word<N>, w: Word<N>)
    requires
        a.wf(),
        w.wf(),
        m.cells.len() == N,
        m.guessed(a.bits(), a.bits()).admits(w.bits(), w.all_chars),
    ensures
        w.bits() == a.bits(),
        w@ == a@,
{
    let next = m.guessed(a.bits(), a.bits());
    assert forall|i: int| 0 <= i < N implies #[trigger] w.bits()[i] == a.bits()[i] by {
        let (c, x, y) = (m.cells[i], a.bits()[i], w.bits()[i]);
        assert(next.cells[i] & w.bits()[i] != 0);
        assert((c & x) & y != 0 ==> x & y != 0) by (bit_vector);
        lemma_letter_bits_disjoint(x, y);
    }
    assert(w.bits() =~= a.bits());
}

/// A letter of `s` lies in the union of `s`.
proof fn lemma_member_in_union(s: Seq<u32>, x: u32)
    requires
        s.contains(x),
    ensures
        union_of(s) & x == x,
    decreases s.len(),
{
    let u = union_of(s.drop_last());
    let l = s.last();
    if l == x {
        assert((u | x) & x == x) by (bit_vector);
    } else {
        let j = choose|j: int| 0 <= j < s.len() && s[j] == x;
        assert(s.drop_last()[j] == x);
        lemma_member_in_union(s.drop_last(), x);
        assert(u & x == x ==> (u | l) & x == x) by (bit_vector);
    }
}

/// A letter missing from `s` shares no bit with the union of `s`.
proof fn lemma_non_member_outside_union(s: Seq<u32>, x: u32)
    requires
        !s.contains(x),
        is_letter_bit(x),
        forall|i: int| 0 <= i < s.len() ==> is_letter_bit(#[trigger] s[i]),
    ensures
        union_of(s) & x == 0,
    decreases s.len(),
{
    if s.len() > 0 {
        let u = union_of(s.drop_last());
        let l = s.last();
        assert(!s.drop_last().contains(x)) by {
            if s.drop_last().contains(x) {
                let j = choose|j: int| 0 <= j < s.drop_last().len() && s.drop_last()[j] == x;
                assert(s[j] == x);
            }
        }
        assert forall|i: int| 0 <= i < s.drop_last().len() implies is_letter_bit(
            #[trigger] s.drop_last()[i],
        ) by {
            assert(s.drop_last()[i] == s[i]);
        }
        lemma_non_member_outside_union(s.drop_last(), x);
        assert(s[s.len() - 1] != x);
        lemma_letter_bits_disjoint(l, x);
        assert(u & x == 0 && l & x == 0 ==> (u | l) & x == 0) by (bit_vector);
    } else {
        assert(0u32 & x == 0) by (bit_vector);
    }
}

/// The letters that feedback against `actual` calls present are all in
/// `actual`, and those it calls absent are all outside it.
proof fn lemma_feedback_unions<const N: usize>(g: Word<N>, a: Word<N>, n: nat)
    requires
        g.wf(),
        a.wf(),
        n <= N,
    ensures
        a.all_chars & present_union(g.bits(), classify(g.bits(), a.bits()), n) == present_union(
            g.bits(),
            classify(g.bits(), a.bits()),
            n,
        ),
        a.all_chars & absent_union(g.bits(), classify(g.bits(), a.bits()), n) == 0,
    decreases n,
{
    let marks = classify(g.bits(), a.bits());
    let all = a.all_chars;
    if n == 0 {
        assert(all & 0u32 == 0u32) by (bit_vector);
    } else {
        lemma_feedback_unions(g, a, (n - 1) as nat);
        let k = n - 1;
        let x = g.bits()[k];
        let p = present_union(g.bits(), marks, (n - 1) as nat);
        let q = absent_union(g.bits(), marks, (n - 1) as nat);
        if marks[k] != Mark::Absent {
            assert(a.bits().contains(x)) by {
                if x == a.bits()[k] {
                    assert(a.bits()[k] == x);
                }
            }
            lemma_member_in_union(a.bits(), x);
            assert(all & p == p && all & x == x ==> all & (p | x) == p | x) by (bit_vector);
        } else {
            lemma_non_member_outside_union(a.bits(), x);
            assert(all & q == 0 && all & x == 0 ==> all & (q | x) == 0) by (bit_vector);
        }
    }
}

/// Truthful feedback never rules out the answer it came from.
pub proof fn lemma_answer_stays_admitted<const N: usize>(m: MaskModel, g: Word<N>, a: Word<N>)
    requires
        g.wf(),
        a.wf(),
        m.cells.len() == N,
        m.admits(a.bits(), a.all_chars),
    ensures
        m.guessed(g.bits(), a.bits()).admits(a.bits(), a.all_chars),
{
    let next = m.guessed(g.bits(), a.bits());
    let marks = classify(g.bits(), a.bits());
    lemma_feedback_unions(g, a, N as nat);
    let all = a.all_chars;
    let (p, pu) = (m.positive, present_union(g.bits(), marks, N as nat));
    let (n, au) = (m.negative, absent_union(g.bits(), marks, N as nat));
    assert(all & p == p && all & pu == pu ==> all & (p | pu) == p | pu) by (bit_vector);
    assert(all & n == 0 && all & au == 0 ==> all & (n | au) == 0) by (bit_vector);
    assert forall|i: int| 0 <= i < N implies #[trigger] next.cells[i] & a.bits()[i] != 0 by {
        let (c, x, y) = (m.cells[i], g.bits()[i], a.bits()[i]);
        assert(m.cells[i] & a.bits()[i] != 0);
        if marks[i] == Mark::Misplaced {
            lemma_letter_bits_disjoint(x, y);
            assert(c & y != 0 && x & y == 0 ==> (c & !x) & y != 0) by (bit_vector);
        } else if marks[i] == Mark::Exact {
            assert(c & y != 0 ==> (c & y) & y != 0) by (bit_vector);
        }
    }
}

/// The letters among the first `k` of the alphabet whose bit is set in `m`,
/// each followed by a comma.
pub open spec fn letters_text(m: u32, k: nat) -> Seq<char>
    decreases k,
{
    if k == 0 {
        Seq::empty()
    } else if (m >> ((k - 1) as u32)) & 1 != 0 {
        letters_text(m, (k - 1) as nat) + seq![letter_char((k - 1) as nat), ',']
    } else {
        letters_text(m, (k - 1) as nat)
    }
}

/// The letters allowed at each position, each list closed by `" | "`.
pub open spec fn cells_text(cells: Seq<u32>) -> Seq<char>
    decreases cells.len(),
{
    if cells.len() == 0 {
        Seq::empty()
    } else {
        cells_text(cells.drop_last()) + letters_text(cells.last(), ALPHABET_LEN as nat) + seq![
            ' ',
            '|',
            ' ',
        ]
    }
}

/// A readable account of what the mask knows.
pub open spec fn describe_text(m: MaskModel) -> Seq<char> {
    seq!['C', 'h', 'a', 'r', 's', ':', ' '] + cells_text(m.cells) + seq![
        '\n',
        'P',
        'o',
        's',
        'i',
        't',
        'i',
        'v',
        'e',
        ':',
        ' ',
    ] + letters_text(m.positive, ALPHABET_LEN as nat) + seq![
        '\n',
        'N',
        'e',
        'g',
        'a',
        't',
        'i',
        'v',
        'e',
        ':',
        ' ',
    ] + letters_text(m.negative, ALPHABET_LEN as nat)
}

/// Appends the letters whose bit is set in `m`, each followed by a comma.
fn append_letters(out: &mut String, m: u32)
    ensures
        final(out)@ == old(out)@ + letters_text(m, ALPHABET_LEN as nat),
{
    let mut k: u32 = 0;
    while k < ALPHABET_LEN
        invariant
            0 <= k <= ALPHABET_LEN,
            out@ == old(out)@ + letters_text(m, k as nat),
        decreases ALPHABET_LEN - k,
    {
        if (m >> k) & 1 != 0 {
            out.append(letter_text(k));
            proof {
                reveal_strlit(",");
            }
            out.append(",");
            assert(out@ =~= old(out)@ + letters_text(m, (k + 1) as nat));
        } else {
            assert(out@ =~= old(out)@ + letters_text(m, (k + 1) as nat));
        }
        k = k + 1;
    }
}

/// The accumulated constraints of one puzzle attempt.
#[derive(Clone, Copy, Debug)]
pub struct WordMask<const N: usize> {
    pub char_mask: [u32; N],
    pub positive_mask: u32,
    pub negative_mask: u32,
}

impl<const N: usize> WordMask<N> {
    pub open spec fn view(&self) -> MaskModel {
        MaskModel {
            cells: self.char_mask@,
            positive: self.positive_mask,
            negative: self.negative_mask,
        }
    }

    /// The mask that knows nothing: every letter allowed everywhere.
    pub fn new() -> (r: WordMask<N>)
        ensures
            r@ == empty_model(N as nat),
    {
        let r = WordMask { char_mask: [ALL_ALLOWED; N], positive_mask: 0, negative_mask: 0 };
        assert(r.char_mask@ =~= Seq::new(N as nat, |i: int| ALL_ALLOWED));
        r
    }

    /// Records feedback `m` on the letter `bit` guessed at position `i`.
    fn apply_mark(&mut self, i: usize, bit: u32, m: Mark)
        requires
            i < N,
        ensures
            final(self).char_mask@ == old(self).char_mask@.update(
                i as int,
                updated_cell(old(self).char_mask[i as int], bit, m),
            ),
            final(self).positive_mask == if m != Mark::Absent {
                old(self).positive_mask | bit
            } else {
                old(self).positive_mask
            },
            final(self).negative_mask == if m == Mark::Absent {
                old(self).negative_mask | bit
            } else {
                old(self).negative_mask
            },
    {
        match m {
            Mark::Exact => {
                self.char_mask[i] = self.char_mask[i] & bit;
                self.positive_mask = self.positive_mask | bit;
            },
            Mark::Misplaced => {
                self.char_mask[i] = self.char_mask[i] & !bit;
                self.positive_mask = self.positive_mask | bit;
            },
            Mark::Absent => {
                self.negative_mask = self.negative_mask | bit;
            },
        }
    }

    /// Narrows the mask by the feedback that guessing `guess` gets when the
    /// answer is `actual`.
    pub fn apply_guess(&mut self, guess: &Word<N>, actual: &Word<N>)
        ensures
            final(self)@ == old(self)@.guessed(guess.bits(), actual.bits()),
            old(self)@.tightens_to(final(self)@),
    {
        proof {
            lemma_update_tightens(old(self)@, guess.bits(), classify(guess.bits(), actual.bits()));
        }
        let ghost marks = classify(guess.bits(), actual.bits());
        proof {
            lemma_or_zero(self.positive_mask);
            lemma_or_zero(self.negative_mask);
        }
        let mut i: usize = 0;
        while i < N
            invariant
                0 <= i <= N,
                marks == classify(guess.bits(), actual.bits()),
                forall|j: int|
                    0 <= j < i ==> #[trigger] self.char_mask@[j] == updated_cell(
                        old(self).char_mask@[j],
                        guess.bits()[j],
                        marks[j],
                    ),
                forall|j: int| i <= j < N ==> #[trigger] self.char_mask@[j] == old(self).char_mask@[j],
                self.positive_mask == old(self).positive_mask | present_union(
                    guess.bits(),
                    marks,
                    i as nat,
                ),
                self.negative_mask == old(self).negative_mask | absent_union(
                    guess.bits(),
                    marks,
                    i as nat,
                ),
            decreases N - i,
        {
            let g = guess.characters[i];
            let m = if g == actual.characters[i] {
                Mark::Exact
            } else if contains_letter(actual, g) {
                Mark::Misplaced
            } else {
                Mark::Absent
            };
            assert(m == marks[i as int]);
            self.apply_mark(i, g, m);
            proof {
                lemma_or_assoc(old(self).positive_mask, present_union(guess.bits(), marks, i as nat), g);
                lemma_or_assoc(old(self).negative_mask, absent_union(guess.bits(), marks, i as nat), g);
            }
            i = i + 1;
        }
        assert(self.char_mask@ =~= old(self)@.guessed(guess.bits(), actual.bits()).cells);
    }

    /// Narrows the mask by annotated feedback (see `parse_feedback`). When the
    /// feedback is malformed, or puts a marker on a position already locked
    /// to a different letter, the mask is left as it was and the result is
    /// `false`.
    pub fn apply_input(&mut self, input: &str) -> (r: bool)
        ensures
            r == old(self)@.accepts_feedback(input@),
            r ==> final(self)@ == old(self)@.updated(
                feedback_bits(parse_feedback(input@)->Some_0),
                feedback_marks(parse_feedback(input@)->Some_0),
            ),
            r ==> old(self)@.tightens_to(final(self)@),
            !r ==> *final(self) == *old(self),
    {
        proof {
            if let Some(t) = parse_feedback(input@) {
                lemma_update_tightens(old(self)@, feedback_bits(t), feedback_marks(t));
            }
        }
        let n = input.unicode_len();
        let ghost s = input@;
        let mut parsed: Vec<(char, Mark)> = Vec::new();
        proof {
            assert(s.skip(0) =~= s);
            if let Some(t) = parse_feedback(s) {
                assert(Seq::<(char, Mark)>::empty() + t =~= t);
            }
        }
        let mut i: usize = 0;
        while i < n
            invariant
                n == s.len(),
                s == input@,
                0 <= i <= n,
                parse_feedback(s) == prepend_feedback(parsed@, parse_feedback(s.skip(i as int))),
                forall|k: int| 0 <= k < parsed@.len() ==> is_letter(#[trigger] parsed@[k].0),
            decreases n - i,
        {
            let c = input.get_char(i);
            let ghost rest = s.skip(i as int);
            assert(rest[0] == c);
            if c < 'a' || c > 'z' {
                return false;
            }
            let mut mark = Mark::Absent;
            let mut step: usize = 1;
            if i + 1 < n {
                let next = input.get_char(i + 1);
                assert(rest[1] == next);
                if next == '!' {
                    mark = Mark::Exact;
                    step = 2;
                } else if next == '?' {
                    mark = Mark::Misplaced;
                    step = 2;
                }
            }
            proof {
                assert(rest.skip(step as int) =~= s.skip(i + step));
                let tail = parse_feedback(s.skip(i + step));
                assert(parse_feedback(rest) == prepend_feedback(seq![(c, mark)], tail));
                if let Some(t) = tail {
                    assert(parsed@ + (seq![(c, mark)] + t) =~= parsed@.push((c, mark)) + t);
                }
            }
            parsed.push((c, mark));
            i = i + step;
        }
        proof {
            assert(s.skip(n as int) =~= Seq::<char>::empty());
            assert(parsed@ + Seq::<(char, Mark)>::empty() =~= parsed@);
        }
        let ghost t = parsed@;
        if parsed.len() != N {
            return false;
        }
        let mut j: usize = 0;
        while j < N
            invariant
                t == parsed@,
                t.len() == N,
                forall|k: int| 0 <= k < t.len() ==> is_letter(#[trigger] t[k].0),
                0 <= j <= N,
                *self == *old(self),
                parse_feedback(input@) == Some(t),
                forall|k: int|
                    0 <= k < j && t[k].1 != Mark::Absent ==> !(is_locked(
                        #[trigger] self.char_mask@[k],
                    ) && self.char_mask@[k] != letter_bit(t[k].0)),
            decreases N - j,
        {
            let (c, mark) = parsed[j];
            let bit: u32 = 1u32 << ((c as u32) - FIRST_LETTER);
            assert(bit == letter_bit(t[j as int].0));
            let cell = self.char_mask[j];
            if mark != Mark::Absent && cell != 0 && cell & (cell - 1) == 0 && cell != bit {
                assert(is_locked(old(self)@.cells[j as int]));
                return false;
            }
            j = j + 1;
        }
        let ghost bits = feedback_bits(t);
        let ghost marks = feedback_marks(t);
        proof {
            lemma_or_zero(self.positive_mask);
            lemma_or_zero(self.negative_mask);
        }
        let mut i: usize = 0;
        while i < N
            invariant
                t == parsed@,
                t.len() == N,
                forall|k: int| 0 <= k < t.len() ==> is_letter(#[trigger] t[k].0),
                bits == feedback_bits(t),
                marks == feedback_marks(t),
                0 <= i <= N,
                forall|j: int|
                    0 <= j < i ==> #[trigger] self.char_mask@[j] == updated_cell(
                        old(self).char_mask@[j],
                        bits[j],
                        marks[j],
                    ),
                forall|j: int| i <= j < N ==> #[trigger] self.char_mask@[j] == old(self).char_mask@[j],
                self.positive_mask == old(self).positive_mask | present_union(bits, marks, i as nat),
                self.negative_mask == old(self).negative_mask | absent_union(bits, marks, i as nat),
            decreases N - i,
        {
            let (c, mark) = parsed[i];
            let bit: u32 = 1u32 << ((c as u32) - FIRST_LETTER);
            assert(bit == bits[i as int]);
            self.apply_mark(i, bit, mark);
            proof {
                lemma_or_assoc(old(self).positive_mask, present_union(bits, marks, i as nat), bit);
                lemma_or_assoc(old(self).negative_mask, absent_union(bits, marks, i as nat), bit);
            }
            i = i + 1;
        }
        assert(self.char_mask@ =~= old(self)@.updated(bits, marks).cells);
        true
    }

    /// The mask of what guessing `guess` teaches about `actual`, from nothing.
    pub fn new_from_guess(guess: &Word<N>, actual: &Word<N>) -> (r: WordMask<N>)
        ensures
            r@ == empty_model(N as nat).guessed(guess.bits(), actual.bits()),
    {
        let mut r = WordMask::new();
        r.apply_guess(guess, actual);
        r
    }

    /// Lists the letters allowed at each position, then the letters known to
    /// be present, then those known to be absent.
    pub fn describe(&self) -> (r: String)
        ensures
            r@ == describe_text(self@),
    {
        proof {
            reveal_strlit("Chars: ");
            reveal_strlit("\nPositive: ");
            reveal_strlit("\nNegative: ");
        }
        let mut out = String::new();
        out.append("Chars: ");
        let mut i: usize = 0;
        while i < N
            invariant
                0 <= i <= N,
                out@ == seq!['C', 'h', 'a', 'r', 's', ':', ' '] + cells_text(
                    self.char_mask@.subrange(0, i as int),
                ),
            decreases N - i,
        {
            assert(self.char_mask@.subrange(0, i + 1).drop_last() =~= self.char_mask@.subrange(
                0,
                i as int,
            ));
            let ghost before = out@;
            append_letters(&mut out, self.char_mask[i]);
            out.append(" | ");
            assert(self.char_mask@.subrange(0, i + 1).last() == self.char_mask@[i as int]);
            proof {
                reveal_strlit(" | ");
            }
            assert(" | "@ =~= seq![' ', '|', ' ']);
            assert(out@ =~= before + letters_text(self.char_mask@[i as int], ALPHABET_LEN as nat)
                + seq![' ', '|', ' ']);
            assert(out@ =~= seq!['C', 'h', 'a', 'r', 's', ':', ' '] + cells_text(
                self.char_mask@.subrange(0, i + 1),
            ));
            i = i + 1;
        }
        assert(self.char_mask@.subrange(0, N as int) =~= self.char_mask@);
        out.append("\nPositive: ");
        append_letters(&mut out, self.positive_mask);
        out.append("\nNegative: ");
        append_letters(&mut out, self.negative_mask);
        assert(out@ =~= describe_text(self@));
        out
    }

    /// Whether `word` is consistent with everything the mask knows.
    pub fn filter_word(&self, word: &Word<N>) -> (r: bool)
        ensures
            r == self@.admits(word.bits(), word.all_chars),
    {
        if word.all_chars & self.positive_mask != self.positive_mask {
            return false;
        }
        if word.all_chars & self.negative_mask != 0 {
            return false;
        }
        let mut i: usize = 0;
        while i < N
            invariant
                0 <= i <= N,
                forall|j: int| 0 <= j < i ==> #[trigger] self.char_mask@[j] & word.bits()[j] != 0,
            decreases N - i,
        {
            if self.char_mask[i] & word.characters[i] == 0 {
                assert(self@.cells[i as int] & word.bits()[i as int] == 0);
                return false;
            }
            i = i + 1;
        }
        true
    }
}

/// Whether the letter `bit` occurs anywhere in `word`.
fn contains_letter<const N: usize>(word: &Word<N>, bit: u32) -> (r: bool)
    ensures
        r == word.bits().contains(bit),
{
    let mut i: usize = 0;
    while i < N
        invariant
            0 <= i <= N,
            forall|j: int| 0 <= j < i ==> word.bits()[j] != bit,
        decreases N - i,
    {
        if word.characters[i] == bit {
            return true;
        }
        i = i + 1;
    }
    false
}

} // verus!
