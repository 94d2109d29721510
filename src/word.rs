use vstd::prelude::*;
use vstd::string::StrSliceExecFns;
use vstd::string::StringExecFns;

verus! {

/// Number of letters in the alphabet.
pub const ALPHABET_LEN: u32 = 26;

/// Code point of the first letter, `'a'`.
pub const FIRST_LETTER: u32 = 97;

/// The letter `'a' + k`.
pub open spec fn letter_char(k: nat) -> char {
    (FIRST_LETTER + k) as char
}

/// Index in the alphabet of a lowercase letter.
pub open spec fn letter_index(c: char) -> nat {
    (c as int - FIRST_LETTER) as nat
}

pub open spec fn is_letter(c: char) -> bool {
    'a' <= c && c <= 'z'
}

/// The single-bit mask standing for the letter `c`.
pub open spec fn letter_bit(c: char) -> u32 {
    1u32 << (letter_index(c) as u32)
}

/// Position of the highest set bit of `b` (0 for 0 and 1).
pub open spec fn bit_index(b: u32) -> nat
    decreases b,
{
    if b <= 1 {
        0
    } else {
        1 + bit_index(b / 2)
    }
}

/// `b` has exactly one bit set, and that bit stands for a letter.
pub open spec fn is_letter_bit(b: u32) -> bool {
    bit_index(b) < ALPHABET_LEN && b == 1u32 << (bit_index(b) as u32)
}

/// Bitwise union of all masks in `s`.
pub open spec fn union_of(s: Seq<u32>) -> u32
    decreases s.len(),
{
    if s.len() == 0 {
        0
    } else {
        union_of(s.drop_last()) | s.last()
    }
}

/// A text is a valid word of length `n`: exactly `n` lowercase letters.
pub open spec fn is_word_text(s: Seq<char>, n: nat) -> bool {
    s.len() == n && forall|i: int| 0 <= i < s.len() ==> is_letter(#[trigger] s[i])
}

/// The per-position letter masks of a text.
pub open spec fn text_bits(s: Seq<char>) -> Seq<u32> {
    s.map_values(|c: char| letter_bit(c))
}

/// The letters that a sequence of letter masks stands for.
pub open spec fn bits_text(b: Seq<u32>) -> Seq<char> {
    b.map_values(|x: u32| letter_char(bit_index(x)))
}

/// Why a text could not be encoded as a word.
#[derive(Clone, Copy, Debug, PartialEq, Eq, Structural)]
pub enum WordError {
    NotAscii,
    WrongLength,
    InvalidLetter,
}

/// A word of `N` letters, packed as one single-bit mask per position plus
/// the union of those masks.
#[derive(Clone, Copy, Debug)]
pub struct Word<const N: usize> {
    pub characters: [u32; N],
    pub all_chars: u32,
}

pub proof fn lemma_bit_index_of_shift(k: u32)
    requires
        k < 32,
    ensures
        bit_index(1u32 << k) == k,
    decreases k,
{
    if k == 0 {
        assert(1u32 << 0u32 == 1u32) by (bit_vector);
    } else {
        let km: u32 = (k - 1) as u32;
        assert((1u32 << k) > 1 && (1u32 << k) / 2 == 1u32 << km) by (bit_vector)
            requires
                0 < k < 32,
                km == k - 1,
        ;
        lemma_bit_index_of_shift(km);
    }
}

/// Two letter bits share a bit only when they are the same bit.
pub proof fn lemma_letter_bits_disjoint(a: u32, b: u32)
    requires
        is_letter_bit(a),
        is_letter_bit(b),
    ensures
        (a & b != 0) <==> (a == b),
        (a & b == 0) <==> (a != b),
{
    let i = bit_index(a) as u32;
    let j = bit_index(b) as u32;
    assert(i < 26 && j < 26 ==> (((1u32 << i) & (1u32 << j) != 0) <==> i == j)) by (bit_vector);
    assert(i < 26 && j < 26 ==> (i == j <==> (1u32 << i) == (1u32 << j))) by (bit_vector);
}

/// Decoding an encoded word gives its text back: `Word::new` stores
/// `text_bits` of a valid text, `to_text` reads `bits_text` of the stored
/// masks, and the two undo each other. Each stored mask is a letter bit.
pub proof fn lemma_text_round_trip(s: Seq<char>)
    requires
        forall|i: int| 0 <= i < s.len() ==> is_letter(#[trigger] s[i]),
    ensures
        bits_text(text_bits(s)) == s,
        forall|i: int| 0 <= i < s.len() ==> is_letter_bit(#[trigger] text_bits(s)[i]),
{
    assert forall|i: int| 0 <= i < s.len() implies bit_index(#[trigger] text_bits(s)[i])
        == letter_index(s[i]) by {
        lemma_bit_index_of_shift(letter_index(s[i]) as u32);
    }
    assert(bits_text(text_bits(s)) =~= s);
}

/// The position of the single set bit of `b`.
fn bit_position(b: u32) -> (k: u32)
    requires
        is_letter_bit(b),
    ensures
        k as nat == bit_index(b),
        k < ALPHABET_LEN,
{
    let mut x: u32 = b;
    let mut k: u32 = 0;
    while x > 1
        invariant
            k + bit_index(x) == bit_index(b),
            bit_index(b) < ALPHABET_LEN,
        decreases x,
    {
        x = x / 2;
        k = k + 1;
    }
    k
}

/// The one-character text of the letter with index `k`.
pub fn letter_text(k: u32) -> (r: &'static str)
    requires
        k < ALPHABET_LEN,
    ensures
        r@ == seq![letter_char(k as nat)],
{
    proof {
        reveal_strlit("abcdefghijklmnopqrstuvwxyz");
    }
    let alphabet = "abcdefghijklmnopqrstuvwxyz";
    assert(forall|j: int| 0 <= j < 26 ==> alphabet@[j] == letter_char(j as nat));
    let r = alphabet.substring_ascii(k as usize, k as usize + 1);
    assert(r@ =~= seq![letter_char(k as nat)]);
    r
}

impl<const N: usize> Word<N> {
    /// Every position holds one letter bit, and `all_chars` is their union.
    pub open spec fn wf(&self) -> bool {
        &&& forall|i: int| 0 <= i < N ==> is_letter_bit(#[trigger] self.characters[i])
        &&& self.all_chars == union_of(self.characters@)
    }

    pub open spec fn bits(&self) -> Seq<u32> {
        self.characters@
    }

    /// The word's text.
    pub open spec fn view(&self) -> Seq<char> {
        bits_text(self.characters@)
    }

    /// Encodes `text` as a word: it must be ASCII, `N` characters long, and
    /// made of lowercase letters only.
    pub fn new(text: &str) -> (r: Result<Word<N>, WordError>)
        ensures
            !text.is_ascii() <==> r == Err::<Word<N>, WordError>(WordError::NotAscii),
            text.is_ascii() && text@.len() != N <==> r == Err::<Word<N>, WordError>(
                WordError::WrongLength,
            ),
            text.is_ascii() && text@.len() == N && !is_word_text(text@, N as nat) <==> r
                == Err::<Word<N>, WordError>(WordError::InvalidLetter),
            r is Ok <==> is_word_text(text@, N as nat),
            r is Ok ==> r->Ok_0.wf() && r->Ok_0.bits() == text_bits(text@) && r->Ok_0@
                == text@,
    {
        if !text.is_ascii() {
            return Err(WordError::NotAscii);
        }
        let len = text.unicode_len();
        if len != N {
            return Err(WordError::WrongLength);
        }
        let mut characters: [u32; N] = [0u32; N];
        let mut all_chars: u32 = 0;
        let mut i: usize = 0;
        while i < N
            invariant
                len == N,
                text.is_ascii(),
                text@.len() == N,
                0 <= i <= N,
                forall|j: int| 0 <= j < i ==> is_letter(#[trigger] text@[j]),
                characters@.subrange(0, i as int) == text_bits(text@.subrange(0, i as int)),
                all_chars == union_of(characters@.subrange(0, i as int)),
            decreases N - i,
        {
            let c = text.get_char(i);
            if c < 'a' || c > 'z' {
                return Err(WordError::InvalidLetter);
            }
            let bit: u32 = 1u32 << ((c as u32) - FIRST_LETTER);
            let ghost before = characters@;
            characters[i] = bit;
            all_chars = all_chars | bit;
            proof {
                assert(characters@.subrange(0, i as int) =~= before.subrange(0, i as int));
                assert(characters@.subrange(0, i + 1).drop_last() =~= characters@.subrange(
                    0,
                    i as int,
                ));
                assert(text@.subrange(0, i + 1) =~= text@.subrange(0, i as int).push(c));
                assert(characters@.subrange(0, i + 1) =~= text_bits(text@.subrange(0, i + 1)));
            }
            i = i + 1;
        }
        proof {
            assert(characters@.subrange(0, N as int) =~= characters@);
            assert(text@.subrange(0, N as int) =~= text@);
            lemma_text_round_trip(text@);
        }
        Ok(Word { characters, all_chars })
    }

    /// Whether the two words have the same letter at every position.
    pub fn same_word(&self, other: &Word<N>) -> (r: bool)
        ensures
            r == (self.bits() == other.bits()),
    {
        let mut i: usize = 0;
        while i < N
            invariant
                0 <= i <= N,
                forall|j: int| 0 <= j < i ==> self.bits()[j] == other.bits()[j],
            decreases N - i,
        {
            if self.characters[i] != other.characters[i] {
                return false;
            }
            i = i + 1;
        }
        assert(self.bits() =~= other.bits());
        true
    }

    /// Decodes the word back into its text.
    pub fn to_text(&self) -> (r: String)
        requires
            self.wf(),
        ensures
            r@ == self@,
    {
        let mut out = String::new();
        let mut i: usize = 0;
        while i < N
            invariant
                self.wf(),
                0 <= i <= N,
                out@ == bits_text(self.characters@.subrange(0, i as int)),
            decreases N - i,
        {
            let k = bit_position(self.characters[i]);
            out.append(letter_text(k));
            assert(bits_text(self.characters@.subrange(0, i + 1)) =~= bits_text(
                self.characters@.subrange(0, i as int),
            ).push(letter_char(k as nat)));
            i = i + 1;
        }
        assert(self.characters@.subrange(0, N as int) =~= self.characters@);
        out
    }
}

} // verus!
