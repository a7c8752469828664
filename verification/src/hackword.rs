//! The 16-bit machine word of the Hack computer.
//!
//! A word is stored as a two's-complement signed integer. Bit positions are
//! counted MSB-first: bit 0 is the most significant bit, bit 15 the least.
//! Arithmetic wraps around, as the Hack ALU requires.

use vstd::prelude::*;
use vstd::arithmetic::div_mod::{lemma_div_denominator, lemma_mod_breakdown, lemma_small_mod};
use vstd::arithmetic::power2::{
    lemma2_to64, lemma_pow2_pos, lemma_pow2_strictly_increases, lemma_pow2_unfold, pow2,
};
use vstd::bits::lemma_u16_shr_is_div;
use crate::errors::ParseError;

verus! {

/// A 16-bit signed machine word.
#[derive(Clone, Copy, PartialEq, Eq, Structural, Hash, Debug, Default)]
pub struct HackWord(pub i16);

impl HackWord {
    /// The word's bit pattern read as an unsigned 16-bit value.
    pub open spec fn spec_u16(self) -> u16 {
        self.0 as u16
    }

    /// The bit at MSB-first position `b`: bit 0 is the most significant.
    pub open spec fn spec_bit(self, b: int) -> bool {
        (self.0 as u16 >> ((15 - b) as u16)) & 1 == 1
    }

    /// Whether bit `b` is set, where bit 0 is the most significant bit.
    pub fn bit(&self, b: u8) -> (r: bool)
        requires
            b <= 15,
        ensures
            r == self.spec_bit(b as int),
    {
        let offset: u16 = 15 - (b as u16);
        ((self.0 as u16 >> offset) & 1) == 1
    }

    /// The word reinterpreted as an unsigned index in `[0, 65535]`.
    pub fn to_usize(&self) -> (r: usize)
        ensures
            r == (self.0 as u16) as usize,
            r < 0x10000,
    {
        (self.0 as u16) as usize
    }

    #[inline]
    pub fn one() -> (r: HackWord)
        ensures
            r.0 == 1,
    {
        HackWord(1)
    }

    #[inline]
    pub fn zero() -> (r: HackWord)
        ensures
            r.0 == 0,
    {
        HackWord(0)
    }

    #[inline]
    pub fn minus_one() -> (r: HackWord)
        ensures
            r.0 == -1,
    {
        HackWord(-1)
    }

    /// Two's-complement sum of two words.
    pub open spec fn spec_add(a: HackWord, b: HackWord) -> HackWord {
        HackWord(vstd::wrapping::i16_specs::wrapping_add(a.0, b.0))
    }

    /// Two's-complement difference of two words.
    pub open spec fn spec_sub(a: HackWord, b: HackWord) -> HackWord {
        HackWord(vstd::wrapping::i16_specs::wrapping_sub(a.0, b.0))
    }

    /// Two's-complement negation of a word.
    pub open spec fn spec_neg(a: HackWord) -> HackWord {
        HackWord(vstd::wrapping::i16_specs::wrapping_sub(0i16, a.0))
    }

    /// Bitwise complement of a word.
    pub open spec fn spec_not(a: HackWord) -> HackWord {
        HackWord((!(a.0 as u16)) as i16)
    }

    /// Bitwise conjunction of two words.
    pub open spec fn spec_and(a: HackWord, b: HackWord) -> HackWord {
        HackWord(((a.0 as u16) & (b.0 as u16)) as i16)
    }

    /// Bitwise disjunction of two words.
    pub open spec fn spec_or(a: HackWord, b: HackWord) -> HackWord {
        HackWord(((a.0 as u16) | (b.0 as u16)) as i16)
    }

    /// Addition with two's-complement wraparound.
    pub fn wrapping_add(self, rhs: HackWord) -> (r: HackWord)
        ensures
            r == HackWord::spec_add(self, rhs),
    {
        HackWord(self.0.wrapping_add(rhs.0))
    }

    /// Subtraction with two's-complement wraparound.
    pub fn wrapping_sub(self, rhs: HackWord) -> (r: HackWord)
        ensures
            r == HackWord::spec_sub(self, rhs),
    {
        HackWord(self.0.wrapping_sub(rhs.0))
    }

    /// Negation with two's-complement wraparound.
    pub fn wrapping_neg(self) -> (r: HackWord)
        ensures
            r == HackWord::spec_neg(self),
    {
        HackWord((0i16).wrapping_sub(self.0))
    }

    /// Bitwise NOT.
    pub fn not(self) -> (r: HackWord)
        ensures
            r == HackWord::spec_not(self),
    {
        HackWord((!(self.0 as u16)) as i16)
    }

    /// Bitwise AND.
    pub fn and(self, rhs: HackWord) -> (r: HackWord)
        ensures
            r == HackWord::spec_and(self, rhs),
    {
        HackWord(((self.0 as u16) & (rhs.0 as u16)) as i16)
    }

    /// Bitwise OR.
    pub fn or(self, rhs: HackWord) -> (r: HackWord)
        ensures
            r == HackWord::spec_or(self, rhs),
    {
        HackWord(((self.0 as u16) | (rhs.0 as u16)) as i16)
    }

    /// The canonical text of a word: its 16 bits, most significant first.
    pub open spec fn spec_format(self) -> Seq<char> {
        Seq::new(16, |i: int| if self.spec_bit(i) { '1' } else { '0' })
    }

    /// Formats the word as 16 binary digits, most significant bit first.
    pub fn to_bit_string(&self) -> (r: String)
        ensures
            r@ == self.spec_format(),
    {
        let mut s = String::new();
        proof {
            assert(s@ =~= self.spec_format().subrange(0, 0));
        }
        let mut i: u8 = 0;
        while i < 16
            invariant
                i <= 16,
                s@ == self.spec_format().subrange(0, i as int),
            decreases 16 - i,
        {
            proof {
                reveal_strlit("1");
                reveal_strlit("0");
            }
            if self.bit(i) {
                s.append("1");
            } else {
                s.append("0");
            }
            i = i + 1;
            proof {
                assert(s@ =~= self.spec_format().subrange(0, i as int));
            }
        }
        proof {
            assert(self.spec_format().subrange(0, 16) =~= self.spec_format());
        }
        s
    }

    /// Parses binary digits the way the word parser accepts them:
    /// an optional leading `+`, then at least one digit `0` or `1`.
    pub open spec fn spec_bin_digits(s: Seq<char>) -> bool {
        s.len() > 0 && forall|i: int| 0 <= i < s.len() ==> s[i] == '0' || s[i] == '1'
    }

    /// The value of a string of binary digits, most significant first.
    pub open spec fn spec_bin_val(s: Seq<char>) -> nat
        decreases s.len(),
    {
        if s.len() == 0 {
            0
        } else {
            2 * HackWord::spec_bin_val(s.drop_last()) + (if s.last() == '1' {
                1nat
            } else {
                0nat
            })
        }
    }

    /// The digit part of a word's text: everything after an optional `+`.
    pub open spec fn spec_word_digits(s: Seq<char>) -> Seq<char> {
        if s.len() > 0 && s[0] == '+' {
            s.subrange(1, s.len() as int)
        } else {
            s
        }
    }

    /// What parsing a word's text yields: the value of its binary digits,
    /// reinterpreted as a signed word, if the digits are well-formed and
    /// the value fits in 16 bits.
    pub open spec fn spec_parse_word(s: Seq<char>) -> Option<HackWord> {
        let digits = HackWord::spec_word_digits(s);
        if HackWord::spec_bin_digits(digits) && HackWord::spec_bin_val(digits) <= 65535 {
            Some(HackWord((HackWord::spec_bin_val(digits) as u16) as i16))
        } else {
            None
        }
    }

    /// Parses a word from a string of binary digits, most significant first.
    /// Accepts an optional leading `+` and any number of digits whose value
    /// fits in 16 bits.
    pub fn from_str(s: &str) -> (r: Result<HackWord, ParseError>)
        ensures
            match r {
                Ok(w) => HackWord::spec_parse_word(s@) == Some(w),
                Err(e) => HackWord::spec_parse_word(s@) is None && e is MalformedLine,
            },
    {
        let n = s.unicode_len();
        let start: usize = if n > 0 && s.get_char(0) == '+' {
            1
        } else {
            0
        };
        let ghost digits = HackWord::spec_word_digits(s@);
        proof {
            assert(digits =~= s@.subrange(start as int, n as int));
        }
        if n == start {
            return Err(ParseError::MalformedLine);
        }
        let mut value: u32 = 0;
        let mut too_big: bool = false;
        let mut i: usize = start;
        while i < n
            invariant
                start <= i <= n,
                n == s@.len(),
                digits == HackWord::spec_word_digits(s@),
                digits == s@.subrange(start as int, n as int),
                forall|j: int| start <= j < i ==> s@[j] == '0' || s@[j] == '1',
                !too_big ==> value == HackWord::spec_bin_val(
                    s@.subrange(start as int, i as int),
                ) && value <= 65535,
                too_big ==> HackWord::spec_bin_val(s@.subrange(start as int, i as int)) > 65535,
            decreases n - i,
        {
            let c = s.get_char(i);
            if c != '0' && c != '1' {
                proof {
                    assert(digits[i - start] == s@[i as int]);
                }
                return Err(ParseError::MalformedLine);
            }
            let d: u32 = if c == '1' {
                1
            } else {
                0
            };
            proof {
                assert(s@.subrange(start as int, (i + 1) as int).drop_last() =~= s@.subrange(
                    start as int,
                    i as int,
                ));
                assert(s@.subrange(start as int, (i + 1) as int).last() == s@[i as int]);
            }
            if !too_big {
                let v2: u32 = 2 * value + d;
                if v2 > 65535 {
                    too_big = true;
                } else {
                    value = v2;
                }
            }
            i = i + 1;
        }
        if too_big {
            return Err(ParseError::MalformedLine);
        }
        proof {
            assert forall|k: int| 0 <= k < digits.len() implies digits[k] == '0' || digits[k]
                == '1' by {
                assert(digits[k] == s@[k + start]);
            }
            assert(HackWord::spec_bin_digits(digits));
        }
        Ok(HackWord((value as u16) as i16))
    }
}


/// The bits of `u`, `n` long, most significant first, read arithmetically.
spec fn bits_of(u: u16, n: nat) -> Seq<char> {
    Seq::new(
        n,
        |i: int|
            if (u as nat / pow2((n - 1 - i) as nat)) % 2 == 1 {
                '1'
            } else {
                '0'
            },
    )
}

/// Dropping the last bit of `u`'s low `n` bits leaves the low `n - 1`
/// bits of `u / 2`.
proof fn lemma_bits_step(u: u16, n: nat)
    requires
        1 <= n <= 16,
    ensures
        bits_of(u, n).drop_last() =~= bits_of((u / 2) as u16, (n - 1) as nat),
{
    assert forall|i: int| 0 <= i < n - 1 implies bits_of(u, n)[i] == bits_of(
        (u / 2) as u16,
        (n - 1) as nat,
    )[i] by {
        let k = (n - 2 - i) as nat;
        lemma_pow2_pos(k);
        lemma_div_denominator(u as int, 2, pow2(k) as int);
        lemma_pow2_unfold((k + 1) as nat);
        assert((u as nat / 2) / pow2(k) == u as nat / pow2((k + 1) as nat));
    }
}

/// The value of `u`'s low `n` bits is `u` modulo two to the `n`.
proof fn lemma_bits_val(u: u16, n: nat)
    requires
        n <= 16,
    ensures
        HackWord::spec_bin_val(bits_of(u, n)) == u as nat % pow2(n),
    decreases n,
{
    lemma_pow2_pos(n);
    if n == 0 {
        assert(bits_of(u, 0) =~= Seq::<char>::empty());
        lemma2_to64();
        assert(u as nat % 1 == 0) by (nonlinear_arith);
    } else {
        let m = (n - 1) as nat;
        lemma_bits_step(u, n);
        lemma_bits_val((u / 2) as u16, m);
        lemma_pow2_unfold(n);
        lemma_pow2_pos(m);
        lemma2_to64();
        assert(bits_of(u, n).last() == (if u as nat % 2 == 1 {
            '1'
        } else {
            '0'
        })) by {
            assert(u as nat / 1 == u as nat) by (nonlinear_arith);
        }
        lemma_mod_breakdown(u as int, 2, pow2(m) as int);
    }
}

/// A word's canonical text is its 16 bits read arithmetically.
proof fn lemma_format_is_bits(w: HackWord)
    ensures
        w.spec_format() =~= bits_of(w.0 as u16, 16),
{
    let u: u16 = w.0 as u16;
    assert forall|i: int| 0 <= i < 16 implies w.spec_format()[i] == bits_of(u, 16)[i] by {
        let k: u16 = (15 - i) as u16;
        lemma_u16_shr_is_div(u, k);
        let x: u16 = u >> k;
        assert(x & 1 == x % 2) by (bit_vector);
    }
}

/// The value of a binary string fits below two to its length.
proof fn lemma_val_bound(s: Seq<char>)
    ensures
        HackWord::spec_bin_val(s) < pow2(s.len()),
    decreases s.len(),
{
    lemma_pow2_pos(s.len());
    if s.len() == 0 {
        lemma2_to64();
    } else {
        lemma_val_bound(s.drop_last());
        lemma_pow2_unfold(s.len());
    }
}

/// A binary string is the bits of its own value.
proof fn lemma_bits_of_val(s: Seq<char>)
    requires
        s.len() <= 16,
        forall|i: int| 0 <= i < s.len() ==> s[i] == '0' || s[i] == '1',
    ensures
        bits_of(HackWord::spec_bin_val(s) as u16, s.len()) =~= s,
    decreases s.len(),
{
    let n = s.len();
    let v = HackWord::spec_bin_val(s);
    if n == 0 {
        assert(bits_of(v as u16, 0) =~= s);
    } else {
        let m = (n - 1) as nat;
        let v2 = HackWord::spec_bin_val(s.drop_last());
        let d: nat = if s.last() == '1' {
            1
        } else {
            0
        };
        lemma_val_bound(s);
        lemma_val_bound(s.drop_last());
        lemma_pow2_unfold(n);
        if n < 16 {
            lemma_pow2_strictly_increases(n, 16);
        }
        lemma2_to64();
        assert(v as u16 as nat == v);
        assert(v / 2 == v2 && v % 2 == d) by (nonlinear_arith)
            requires
                v == 2 * v2 + d,
                d < 2,
        ;
        lemma_bits_step(v as u16, n);
        lemma_bits_of_val(s.drop_last());
        assert(((v as u16) / 2) as u16 == v2 as u16);
        assert(bits_of(v as u16, n).drop_last() =~= s.drop_last());
        assert(bits_of(v as u16, n)[n as int - 1] == s.last()) by {
            assert(v as nat / 1 == v) by (nonlinear_arith);
        }
        assert forall|i: int| 0 <= i < n implies bits_of(v as u16, n)[i] == s[i] by {
            if i < n - 1 {
                assert(bits_of(v as u16, n).drop_last()[i] == s.drop_last()[i]);
            }
        }
    }
}

/// Law: formatting a word and parsing the text back yields the word.
pub proof fn lemma_format_parse(w: HackWord)
    ensures
        HackWord::spec_parse_word(w.spec_format()) == Some(w),
{
    let s = w.spec_format();
    let u: u16 = w.0 as u16;
    lemma_format_is_bits(w);
    assert(s[0] == '0' || s[0] == '1');
    assert(HackWord::spec_word_digits(s) == s);
    assert(HackWord::spec_bin_digits(s));
    lemma_bits_val(u, 16);
    lemma2_to64();
    lemma_small_mod(u as nat, 65536);
    let x: i16 = w.0;
    assert((x as u16) as i16 == x) by (bit_vector);
}

/// Law: parsing a canonical line of 16 binary digits and formatting the
/// word back yields the same text.
pub proof fn lemma_parse_format(s: Seq<char>)
    requires
        s.len() == 16,
        forall|i: int| 0 <= i < 16 ==> s[i] == '0' || s[i] == '1',
    ensures
        HackWord::spec_parse_word(s) matches Some(w) && w.spec_format() == s,
{
    assert(HackWord::spec_word_digits(s) == s);
    assert(HackWord::spec_bin_digits(s));
    let v = HackWord::spec_bin_val(s);
    lemma_val_bound(s);
    lemma2_to64();
    let w = HackWord((v as u16) as i16);
    let y: u16 = v as u16;
    assert((y as i16) as u16 == y) by (bit_vector);
    assert(w.0 as u16 == v as u16);
    lemma_format_is_bits(w);
    lemma_bits_of_val(s);
}

} // verus!
