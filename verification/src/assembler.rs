//! The assembly line parser and the two-pass translator.
//!
//! A source line is split at the first `//` into instruction text and
//! comment. The instruction text, trimmed, is a blank line, an `@`-address,
//! a `(label)`, or a compute instruction of the form `[DEST=]COMP[;JUMP]`.

use vstd::prelude::*;
use vstd::arithmetic::div_mod::lemma_fundamental_div_mod;
use crate::errors::{CompileError, ParseError, ParseErrorView};
use crate::hackword::HackWord;
use crate::instruction::{Comp, Dest, Instruction, Jump};
use crate::symbols::SymbolTable;

verus! {

/// The target of an `@` instruction: a constant or a symbolic name.
#[derive(Clone, PartialEq, Eq, Debug)]
pub enum MemoryLocation {
    Numeric(u16),
    Variable(String),
}

/// The mathematical value of a [`MemoryLocation`].
pub ghost enum MemoryLocationView {
    Numeric(u16),
    Variable(Seq<char>),
}

impl View for MemoryLocation {
    type V = MemoryLocationView;

    open spec fn view(&self) -> MemoryLocationView {
        match self {
            MemoryLocation::Numeric(n) => MemoryLocationView::Numeric(*n),
            MemoryLocation::Variable(v) => MemoryLocationView::Variable(v@),
        }
    }
}

/// One parsed line of assembly.
#[derive(Clone, PartialEq, Eq, Debug)]
pub enum Asm {
    LoadAddress(MemoryLocation),
    Label(String),
    Compute { dest: Dest, should_deref: bool, comp: Comp, jump: Jump },
    EmptyLine,
}

/// The mathematical value of an [`Asm`] line.
pub ghost enum AsmView {
    LoadAddress(MemoryLocationView),
    Label(Seq<char>),
    Compute { dest: Dest, should_deref: bool, comp: Comp, jump: Jump },
    EmptyLine,
}

impl View for Asm {
    type V = AsmView;

    open spec fn view(&self) -> AsmView {
        match self {
            Asm::LoadAddress(l) => AsmView::LoadAddress(l@),
            Asm::Label(l) => AsmView::Label(l@),
            Asm::Compute { dest, should_deref, comp, jump } => AsmView::Compute {
                dest: *dest,
                should_deref: *should_deref,
                comp: *comp,
                jump: *jump,
            },
            Asm::EmptyLine => AsmView::EmptyLine,
        }
    }
}

/// A parsed line together with its trailing comment, if any.
#[derive(Clone, PartialEq, Eq, Debug)]
pub struct AsmLine {
    pub instruction: Asm,
    pub comment: Option<String>,
}

/// The mathematical value of an [`AsmLine`].
pub ghost struct AsmLineView {
    pub instruction: AsmView,
    pub comment: Option<Seq<char>>,
}

impl View for AsmLine {
    type V = AsmLineView;

    open spec fn view(&self) -> AsmLineView {
        AsmLineView {
            instruction: self.instruction@,
            comment: match &self.comment {
                Some(c) => Some(c@),
                None => None,
            },
        }
    }
}

/// The whitespace characters the parser strips at either end of a token.
pub open spec fn is_space(c: char) -> bool {
    c == ' ' || c == '\t' || c == '\n' || c == '\r' || c == '\u{0b}' || c == '\u{0c}'
}

/// The first index at or after `i` holding a non-space character, or the
/// length of `s`.
pub open spec fn spec_skip_spaces(s: Seq<char>, i: nat) -> int
    decreases s.len() - i,
{
    if i < s.len() && is_space(s[i as int]) {
        spec_skip_spaces(s, i + 1)
    } else {
        i as int
    }
}

/// The index just past the last non-space character strictly before `j`,
/// or zero.
pub open spec fn spec_skip_spaces_end(s: Seq<char>, j: nat) -> int
    decreases j,
{
    if j > 0 && is_space(s[j - 1]) {
        spec_skip_spaces_end(s, (j - 1) as nat)
    } else {
        j as int
    }
}

/// `s` with leading and trailing whitespace removed.
pub open spec fn spec_trim(s: Seq<char>) -> Seq<char> {
    let a = spec_skip_spaces(s, 0);
    let b = spec_skip_spaces_end(s, s.len());
    if a <= b {
        s.subrange(a, b)
    } else {
        Seq::empty()
    }
}

/// The first index at or after `i` where `c` occurs in `s`.
pub open spec fn spec_find_from(s: Seq<char>, c: char, i: nat) -> Option<int>
    decreases s.len() - i,
{
    if i < s.len() {
        if s[i as int] == c {
            Some(i as int)
        } else {
            spec_find_from(s, c, i + 1)
        }
    } else {
        None
    }
}

/// The first index at or after `i` where the two-character comment marker
/// `//` begins in `s`.
pub open spec fn spec_comment_from(s: Seq<char>, i: nat) -> Option<int>
    decreases s.len() - i,
{
    if i + 2 <= s.len() {
        if s[i as int] == '/' && s[i as int + 1] == '/' {
            Some(i as int)
        } else {
            spec_comment_from(s, i + 1)
        }
    } else {
        None
    }
}

/// A decimal digit.
pub open spec fn is_digit(c: char) -> bool {
    48 <= c as int <= 57
}

/// A non-empty string of decimal digits.
pub open spec fn spec_dec_digits(s: Seq<char>) -> bool {
    s.len() > 0 && forall|i: int| 0 <= i < s.len() ==> is_digit(s[i])
}

/// The value of a string of decimal digits, most significant first.
pub open spec fn spec_dec_val(s: Seq<char>) -> nat
    decreases s.len(),
{
    if s.len() == 0 {
        0
    } else {
        10 * spec_dec_val(s.drop_last()) + (if is_digit(s.last()) {
            (s.last() as int - 48) as nat
        } else {
            0
        })
    }
}

/// The shape of a decimal constant: an optional leading `+`, then at
/// least one digit.
pub open spec fn spec_dec_shape(s: Seq<char>) -> bool {
    spec_dec_digits(crate::hackword::HackWord::spec_word_digits(s))
}

/// The value a decimal constant's digits name.
pub open spec fn spec_dec_value(s: Seq<char>) -> nat {
    spec_dec_val(crate::hackword::HackWord::spec_word_digits(s))
}

/// An out-of-range constant as reported: its value, saturated to 32 bits.
pub open spec fn spec_sat_u32(v: nat) -> u32 {
    if v > 0xFFFFFFFF {
        0xFFFFFFFF
    } else {
        v as u32
    }
}

/// Folds destination characters left to right: `A`, `D` and `M` set their
/// flags (duplicates are idempotent); any other character is the error.
pub open spec fn spec_parse_dest_from(s: Seq<char>, i: nat, acc: Dest) -> Result<Dest, char>
    decreases s.len() - i,
{
    if i < s.len() {
        let c = s[i as int];
        if c == 'A' {
            spec_parse_dest_from(s, i + 1, Dest { a: true, ..acc })
        } else if c == 'D' {
            spec_parse_dest_from(s, i + 1, Dest { d: true, ..acc })
        } else if c == 'M' {
            spec_parse_dest_from(s, i + 1, Dest { m: true, ..acc })
        } else {
            Err(c)
        }
    } else {
        Ok(acc)
    }
}

/// The fixed table of 28 computation mnemonics: the named operation and
/// whether the second operand is read from memory.
pub open spec fn spec_comp_table(s: Seq<char>) -> Option<(Comp, bool)> {
    if s.len() == 1 {
        if s[0] == '0' {
            Some((Comp::Zero, false))
        } else if s[0] == '1' {
            Some((Comp::One, false))
        } else if s[0] == 'D' {
            Some((Comp::D, false))
        } else if s[0] == 'A' {
            Some((Comp::A, false))
        } else if s[0] == 'M' {
            Some((Comp::A, true))
        } else {
            None
        }
    } else if s.len() == 2 {
        if s[0] == '-' && s[1] == '1' {
            Some((Comp::MinusOne, false))
        } else if s[0] == '!' && s[1] == 'D' {
            Some((Comp::NotD, false))
        } else if s[0] == '!' && s[1] == 'A' {
            Some((Comp::NotA, false))
        } else if s[0] == '!' && s[1] == 'M' {
            Some((Comp::NotA, true))
        } else if s[0] == '-' && s[1] == 'D' {
            Some((Comp::MinusD, false))
        } else if s[0] == '-' && s[1] == 'A' {
            Some((Comp::MinusA, false))
        } else if s[0] == '-' && s[1] == 'M' {
            Some((Comp::MinusA, true))
        } else {
            None
        }
    } else if s.len() == 3 {
        if s[0] == 'D' && s[1] == '+' && s[2] == '1' {
            Some((Comp::DPlus1, false))
        } else if s[0] == 'A' && s[1] == '+' && s[2] == '1' {
            Some((Comp::APlus1, false))
        } else if s[0] == 'M' && s[1] == '+' && s[2] == '1' {
            Some((Comp::APlus1, true))
        } else if s[0] == 'D' && s[1] == '-' && s[2] == '1' {
            Some((Comp::DMinus1, false))
        } else if s[0] == 'A' && s[1] == '-' && s[2] == '1' {
            Some((Comp::AMinus1, false))
        } else if s[0] == 'M' && s[1] == '-' && s[2] == '1' {
            Some((Comp::AMinus1, true))
        } else if s[0] == 'D' && s[1] == '+' && s[2] == 'A' {
            Some((Comp::DPlusA, false))
        } else if s[0] == 'D' && s[1] == '+' && s[2] == 'M' {
            Some((Comp::DPlusA, true))
        } else if s[0] == 'D' && s[1] == '-' && s[2] == 'A' {
            Some((Comp::DMinusA, false))
        } else if s[0] == 'D' && s[1] == '-' && s[2] == 'M' {
            Some((Comp::DMinusA, true))
        } else if s[0] == 'A' && s[1] == '-' && s[2] == 'D' {
            Some((Comp::AMinusD, false))
        } else if s[0] == 'M' && s[1] == '-' && s[2] == 'D' {
            Some((Comp::AMinusD, true))
        } else if s[0] == 'D' && s[1] == '&' && s[2] == 'A' {
            Some((Comp::DAndA, false))
        } else if s[0] == 'D' && s[1] == '&' && s[2] == 'M' {
            Some((Comp::DAndA, true))
        } else if s[0] == 'D' && s[1] == '|' && s[2] == 'A' {
            Some((Comp::DOrA, false))
        } else if s[0] == 'D' && s[1] == '|' && s[2] == 'M' {
            Some((Comp::DOrA, true))
        } else {
            None
        }
    } else {
        None
    }
}

/// The fixed table of jump mnemonics.
pub open spec fn spec_jump_table(s: Seq<char>) -> Option<Jump> {
    if s.len() == 3 {
        if s[0] == 'J' && s[1] == 'G' && s[2] == 'T' {
            Some(Jump::JGT)
        } else if s[0] == 'J' && s[1] == 'E' && s[2] == 'Q' {
            Some(Jump::JEQ)
        } else if s[0] == 'J' && s[1] == 'G' && s[2] == 'E' {
            Some(Jump::JGE)
        } else if s[0] == 'J' && s[1] == 'L' && s[2] == 'T' {
            Some(Jump::JLT)
        } else if s[0] == 'J' && s[1] == 'N' && s[2] == 'E' {
            Some(Jump::JNE)
        } else if s[0] == 'J' && s[1] == 'L' && s[2] == 'E' {
            Some(Jump::JLE)
        } else if s[0] == 'J' && s[1] == 'M' && s[2] == 'P' {
            Some(Jump::JMP)
        } else {
            None
        }
    } else {
        None
    }
}

/// What parsing a compute instruction `[DEST=]COMP[;JUMP]` yields: the
/// text is split at the first `=` and the first `;`; the destination is
/// read character by character, the computation and jump against their
/// tables. A `;` standing before an `=` fits no instruction form.
pub open spec fn spec_parse_compute(s: Seq<char>) -> Result<AsmView, ParseErrorView> {
    let eq = spec_find_from(s, '=', 0);
    let semi = spec_find_from(s, ';', 0);
    match (eq, semi) {
        (Some(e), Some(sm)) => if e > sm {
            Err(ParseErrorView::MalformedLine)
        } else {
            spec_parse_compute_parts(
                s.subrange(0, e),
                s.subrange(e + 1, sm),
                Some(s.subrange(sm + 1, s.len() as int)),
            )
        },
        (Some(e), None) => spec_parse_compute_parts(
            s.subrange(0, e),
            s.subrange(e + 1, s.len() as int),
            None,
        ),
        (None, Some(sm)) => spec_parse_compute_parts(
            Seq::empty(),
            s.subrange(0, sm),
            Some(s.subrange(sm + 1, s.len() as int)),
        ),
        (None, None) => spec_parse_compute_parts(Seq::empty(), s, None),
    }
}

/// Parses the three pieces of a compute instruction, in the order
/// destination, computation, jump; the first failure wins.
pub open spec fn spec_parse_compute_parts(
    dest_s: Seq<char>,
    comp_s: Seq<char>,
    jump_s: Option<Seq<char>>,
) -> Result<AsmView, ParseErrorView> {
    match spec_parse_dest_from(dest_s, 0, Dest { a: false, d: false, m: false }) {
        Err(c) => Err(ParseErrorView::UnknownDestination(c)),
        Ok(dest) => match spec_comp_table(comp_s) {
            None => Err(ParseErrorView::UnknownComputation(comp_s)),
            Some((comp, should_deref)) => match jump_s {
                None => Ok(AsmView::Compute { dest, should_deref, comp, jump: Jump::Null }),
                Some(js) => match spec_jump_table(js) {
                    None => Err(ParseErrorView::UnknownJump(js)),
                    Some(jump) => Ok(AsmView::Compute { dest, should_deref, comp, jump }),
                },
            },
        },
    }
}

/// What parsing the comment-free, trimmed body of a line yields.
pub open spec fn spec_parse_body(s: Seq<char>) -> Result<AsmView, ParseErrorView> {
    if s.len() == 0 {
        Ok(AsmView::EmptyLine)
    } else if s[0] == '@' {
        let addr = spec_trim(s.subrange(1, s.len() as int));
        if spec_dec_shape(addr) {
            if spec_dec_value(addr) > 32767 {
                Err(ParseErrorView::ConstantOutOfRange(spec_sat_u32(spec_dec_value(addr))))
            } else {
                Ok(AsmView::LoadAddress(MemoryLocationView::Numeric(spec_dec_value(addr) as u16)))
            }
        } else {
            Ok(AsmView::LoadAddress(MemoryLocationView::Variable(addr)))
        }
    } else if s.len() >= 2 && s[0] == '(' && s.last() == ')' {
        Ok(AsmView::Label(spec_trim(s.subrange(1, s.len() - 1))))
    } else {
        spec_parse_compute(s)
    }
}

/// What parsing a whole source line yields: the text before the first `//`
/// is the instruction, the trimmed text after it the comment (absent when
/// empty).
pub open spec fn spec_parse_line(s: Seq<char>) -> Result<AsmLineView, ParseErrorView> {
    let body = match spec_comment_from(s, 0) {
        Some(i) => s.subrange(0, i),
        None => s,
    };
    let comment = match spec_comment_from(s, 0) {
        Some(i) => {
            let c = spec_trim(s.subrange(i + 2, s.len() as int));
            if c.len() == 0 {
                None
            } else {
                Some(c)
            }
        },
        None => None,
    };
    match spec_parse_body(spec_trim(body)) {
        Ok(instruction) => Ok(AsmLineView { instruction, comment }),
        Err(e) => Err(e),
    }
}

/// Collects the characters of a string.
fn chars_of(s: &str) -> (v: Vec<char>)
    ensures
        v@ == s@,
{
    let n = s.unicode_len();
    let mut v: Vec<char> = Vec::new();
    proof {
        assert(v@ =~= s@.subrange(0, 0));
    }
    let mut i: usize = 0;
    while i < n
        invariant
            i <= n,
            n == s@.len(),
            v@ == s@.subrange(0, i as int),
        decreases n - i,
    {
        v.push(s.get_char(i));
        i = i + 1;
        proof {
            assert(v@ =~= s@.subrange(0, i as int));
        }
    }
    proof {
        assert(s@.subrange(0, n as int) =~= s@);
    }
    v
}

/// Whether `c` is one of the whitespace characters the parser strips.
fn is_space_char(c: char) -> (r: bool)
    ensures
        r == is_space(c),
{
    c == ' ' || c == '\t' || c == '\n' || c == '\r' || c == '\u{0b}' || c == '\u{0c}'
}

/// Narrows `[lo, hi)` to the whitespace-trimmed range of the same text.
fn trim_range(v: &Vec<char>, lo: usize, hi: usize) -> (r: (usize, usize))
    requires
        lo <= hi <= v@.len(),
    ensures
        lo <= r.0 <= r.1 <= hi,
        v@.subrange(r.0 as int, r.1 as int) == spec_trim(v@.subrange(lo as int, hi as int)),
{
    let ghost s = v@.subrange(lo as int, hi as int);
    let mut p: usize = lo;
    while p < hi && is_space_char(v[p])
        invariant
            lo <= p <= hi <= v@.len(),
            s == v@.subrange(lo as int, hi as int),
            spec_skip_spaces(s, 0) == spec_skip_spaces(s, (p - lo) as nat),
        decreases hi - p,
    {
        p = p + 1;
    }
    proof {
        assert(spec_skip_spaces(s, ((p - lo) as nat)) == p - lo);
    }
    let mut q: usize = hi;
    while q > lo && is_space_char(v[q - 1])
        invariant
            lo <= q <= hi <= v@.len(),
            s == v@.subrange(lo as int, hi as int),
            spec_skip_spaces_end(s, s.len()) == spec_skip_spaces_end(s, (q - lo) as nat),
        decreases q,
    {
        q = q - 1;
    }
    proof {
        assert(spec_skip_spaces_end(s, ((q - lo) as nat)) == q - lo);
    }
    if p <= q {
        proof {
            assert(v@.subrange(p as int, q as int) =~= s.subrange(p - lo, q - lo));
        }
        (p, q)
    } else {
        proof {
            assert(v@.subrange(p as int, p as int) =~= Seq::<char>::empty());
        }
        (p, p)
    }
}

/// The position of the first `c` inside `[lo, hi)`, if any, relative to
/// the subrange.
fn find_char_in(v: &Vec<char>, c: char, lo: usize, hi: usize) -> (r: Option<usize>)
    requires
        lo <= hi <= v@.len(),
    ensures
        ({
            let s = v@.subrange(lo as int, hi as int);
            match r {
                Some(i) => lo <= i < hi && v@[i as int] == c && spec_find_from(s, c, 0)
                    == Some((i - lo) as int),
                None => spec_find_from(s, c, 0) is None,
            }
        }),
{
    let ghost s = v@.subrange(lo as int, hi as int);
    let mut i = lo;
    while i < hi
        invariant
            lo <= i <= hi <= v@.len(),
            s == v@.subrange(lo as int, hi as int),
            spec_find_from(s, c, 0) == spec_find_from(s, c, (i - lo) as nat),
        decreases hi - i,
    {
        if v[i] == c {
            return Some(i);
        }
        i = i + 1;
    }
    None
}

/// The index where the first `//` begins, if any.
fn find_comment(v: &Vec<char>) -> (r: Option<usize>)
    ensures
        match r {
            Some(i) => i + 2 <= v@.len() && spec_comment_from(v@, 0) == Some(i as int),
            None => spec_comment_from(v@, 0) is None,
        },
{
    if v.len() < 2 {
        return None;
    }
    let mut i: usize = 0;
    while i < v.len() - 1
        invariant
            v@.len() >= 2,
            i + 2 <= v@.len() + 1,
            spec_comment_from(v@, 0) == spec_comment_from(v@, i as nat),
        decreases v@.len() - i,
    {
        if v[i] == '/' && v[i + 1] == '/' {
            return Some(i);
        }
        i = i + 1;
    }
    None
}


/// Reads destination characters inside `[lo, hi)`.
fn parse_dest(v: &Vec<char>, lo: usize, hi: usize) -> (r: Result<Dest, char>)
    requires
        lo <= hi <= v@.len(),
    ensures
        r == spec_parse_dest_from(
            v@.subrange(lo as int, hi as int),
            0,
            Dest { a: false, d: false, m: false },
        ),
{
    let ghost s = v@.subrange(lo as int, hi as int);
    let mut acc = Dest { a: false, d: false, m: false };
    let mut i = lo;
    while i < hi
        invariant
            lo <= i <= hi <= v@.len(),
            s == v@.subrange(lo as int, hi as int),
            spec_parse_dest_from(s, 0, Dest { a: false, d: false, m: false })
                == spec_parse_dest_from(s, (i - lo) as nat, acc),
        decreases hi - i,
    {
        let c = v[i];
        if c == 'A' {
            acc.a = true;
        } else if c == 'D' {
            acc.d = true;
        } else if c == 'M' {
            acc.m = true;
        } else {
            return Err(c);
        }
        i = i + 1;
    }
    Ok(acc)
}

/// Looks the text inside `[lo, hi)` up in the computation table.
fn parse_comp(v: &Vec<char>, lo: usize, hi: usize) -> (r: Option<(Comp, bool)>)
    requires
        lo <= hi <= v@.len(),
    ensures
        r == spec_comp_table(v@.subrange(lo as int, hi as int)),
{
    let ghost s = v@.subrange(lo as int, hi as int);
    let len = hi - lo;
    if len == 1 {
        let c0 = v[lo];
        if c0 == '0' {
            Some((Comp::Zero, false))
        } else if c0 == '1' {
            Some((Comp::One, false))
        } else if c0 == 'D' {
            Some((Comp::D, false))
        } else if c0 == 'A' {
            Some((Comp::A, false))
        } else if c0 == 'M' {
            Some((Comp::A, true))
        } else {
            None
        }
    } else if len == 2 {
        let c0 = v[lo];
        let c1 = v[lo + 1];
        if c0 == '-' && c1 == '1' {
            Some((Comp::MinusOne, false))
        } else if c0 == '!' && c1 == 'D' {
            Some((Comp::NotD, false))
        } else if c0 == '!' && c1 == 'A' {
            Some((Comp::NotA, false))
        } else if c0 == '!' && c1 == 'M' {
            Some((Comp::NotA, true))
        } else if c0 == '-' && c1 == 'D' {
            Some((Comp::MinusD, false))
        } else if c0 == '-' && c1 == 'A' {
            Some((Comp::MinusA, false))
        } else if c0 == '-' && c1 == 'M' {
            Some((Comp::MinusA, true))
        } else {
            None
        }
    } else if len == 3 {
        let c0 = v[lo];
        let c1 = v[lo + 1];
        let c2 = v[lo + 2];
        if c0 == 'D' && c1 == '+' && c2 == '1' {
            Some((Comp::DPlus1, false))
        } else if c0 == 'A' && c1 == '+' && c2 == '1' {
            Some((Comp::APlus1, false))
        } else if c0 == 'M' && c1 == '+' && c2 == '1' {
            Some((Comp::APlus1, true))
        } else if c0 == 'D' && c1 == '-' && c2 == '1' {
            Some((Comp::DMinus1, false))
        } else if c0 == 'A' && c1 == '-' && c2 == '1' {
            Some((Comp::AMinus1, false))
        } else if c0 == 'M' && c1 == '-' && c2 == '1' {
            Some((Comp::AMinus1, true))
        } else if c0 == 'D' && c1 == '+' && c2 == 'A' {
            Some((Comp::DPlusA, false))
        } else if c0 == 'D' && c1 == '+' && c2 == 'M' {
            Some((Comp::DPlusA, true))
        } else if c0 == 'D' && c1 == '-' && c2 == 'A' {
            Some((Comp::DMinusA, false))
        } else if c0 == 'D' && c1 == '-' && c2 == 'M' {
            Some((Comp::DMinusA, true))
        } else if c0 == 'A' && c1 == '-' && c2 == 'D' {
            Some((Comp::AMinusD, false))
        } else if c0 == 'M' && c1 == '-' && c2 == 'D' {
            Some((Comp::AMinusD, true))
        } else if c0 == 'D' && c1 == '&' && c2 == 'A' {
            Some((Comp::DAndA, false))
        } else if c0 == 'D' && c1 == '&' && c2 == 'M' {
            Some((Comp::DAndA, true))
        } else if c0 == 'D' && c1 == '|' && c2 == 'A' {
            Some((Comp::DOrA, false))
        } else if c0 == 'D' && c1 == '|' && c2 == 'M' {
            Some((Comp::DOrA, true))
        } else {
            None
        }
    } else {
        None
    }
}

/// Looks the text inside `[lo, hi)` up in the jump table.
fn parse_jump(v: &Vec<char>, lo: usize, hi: usize) -> (r: Option<Jump>)
    requires
        lo <= hi <= v@.len(),
    ensures
        r == spec_jump_table(v@.subrange(lo as int, hi as int)),
{
    let ghost s = v@.subrange(lo as int, hi as int);
    let len = hi - lo;
    if len == 3 {
        let c0 = v[lo];
        let c1 = v[lo + 1];
        let c2 = v[lo + 2];
        if c0 == 'J' && c1 == 'G' && c2 == 'T' {
            Some(Jump::JGT)
        } else if c0 == 'J' && c1 == 'E' && c2 == 'Q' {
            Some(Jump::JEQ)
        } else if c0 == 'J' && c1 == 'G' && c2 == 'E' {
            Some(Jump::JGE)
        } else if c0 == 'J' && c1 == 'L' && c2 == 'T' {
            Some(Jump::JLT)
        } else if c0 == 'J' && c1 == 'N' && c2 == 'E' {
            Some(Jump::JNE)
        } else if c0 == 'J' && c1 == 'L' && c2 == 'E' {
            Some(Jump::JLE)
        } else if c0 == 'J' && c1 == 'M' && c2 == 'P' {
            Some(Jump::JMP)
        } else {
            None
        }
    } else {
        None
    }
}

/// The value of a decimal digit character.
fn digit_of(c: char) -> (r: Option<u32>)
    ensures
        r is Some <==> is_digit(c),
        r matches Some(d) ==> d == c as int - 48,
{
    if c == '0' {
        Some(0)
    } else if c == '1' {
        Some(1)
    } else if c == '2' {
        Some(2)
    } else if c == '3' {
        Some(3)
    } else if c == '4' {
        Some(4)
    } else if c == '5' {
        Some(5)
    } else if c == '6' {
        Some(6)
    } else if c == '7' {
        Some(7)
    } else if c == '8' {
        Some(8)
    } else {
        if c == '9' {
            Some(9)
        } else {
            None
        }
    }
}

/// Reads the text inside `[lo, hi)` as a decimal constant: its value,
/// clamped just above 32 bits, when the shape fits; nothing otherwise.
fn parse_dec_token(v: &Vec<char>, lo: usize, hi: usize) -> (r: Option<u64>)
    requires
        lo <= hi <= v@.len(),
    ensures
        ({
            let s = v@.subrange(lo as int, hi as int);
            match r {
                Some(val) => spec_dec_shape(s) && val == (if spec_dec_value(s) > 0x1_0000_0000 {
                    0x1_0000_0000u64
                } else {
                    spec_dec_value(s) as u64
                }),
                None => !spec_dec_shape(s),
            }
        }),
{
    let ghost s = v@.subrange(lo as int, hi as int);
    let start: usize = if hi > lo && v[lo] == '+' {
        lo + 1
    } else {
        lo
    };
    let ghost digits = crate::hackword::HackWord::spec_word_digits(s);
    proof {
        assert(digits =~= v@.subrange(start as int, hi as int));
    }
    if start == hi {
        return None;
    }
    let mut value: u64 = 0;
    let mut i: usize = start;
    proof {
        assert(spec_dec_val(v@.subrange(start as int, start as int)) == 0) by {
            assert(v@.subrange(start as int, start as int) =~= Seq::<char>::empty());
        }
    }
    while i < hi
        invariant
            start <= i <= hi <= v@.len(),
            s == v@.subrange(lo as int, hi as int),
            digits == crate::hackword::HackWord::spec_word_digits(s),
            digits == v@.subrange(start as int, hi as int),
            forall|j: int| start <= j < i ==> is_digit(v@[j]),
            value == (if spec_dec_val(v@.subrange(start as int, i as int)) > 0x1_0000_0000 {
                0x1_0000_0000u64
            } else {
                spec_dec_val(v@.subrange(start as int, i as int)) as u64
            }),
        decreases hi - i,
    {
        let c = v[i];
        let d: u64 = match digit_of(c) {
            Some(d) => d as u64,
            None => {
                proof {
                    assert(digits[i - start] == v@[i as int]);
                }
                return None;
            },
        };
        proof {
            assert(v@.subrange(start as int, (i + 1) as int).drop_last() =~= v@.subrange(
                start as int,
                i as int,
            ));
            assert(v@.subrange(start as int, (i + 1) as int).last() == v@[i as int]);
        }
        let v2: u64 = 10 * value + d;
        value = if v2 > 0x1_0000_0000 {
            0x1_0000_0000
        } else {
            v2
        };
        i = i + 1;
    }
    proof {
        assert forall|k: int| 0 <= k < digits.len() implies is_digit(digits[k]) by {
            assert(digits[k] == v@[k + start]);
        }
        assert(spec_dec_digits(digits));
    }
    Some(value)
}

/// Parses the text inside `[blo, bhi)` as a compute instruction
/// `[DEST=]COMP[;JUMP]`.
#[verifier::rlimit(60)]
fn parse_compute_range(v: &Vec<char>, line: &str, blo: usize, bhi: usize) -> (r: Result<
    Asm,
    ParseError,
>)
    requires
        v@ == line@,
        blo <= bhi <= v@.len(),
    ensures
        ({
            let s = v@.subrange(blo as int, bhi as int);
            match r {
                Ok(a) => spec_parse_compute(s) == Ok::<AsmView, ParseErrorView>(a@),
                Err(e) => spec_parse_compute(s) == Err::<AsmView, ParseErrorView>(e@),
            }
        }),
{
    let ghost body = v@.subrange(blo as int, bhi as int);
    let eq = find_char_in(v, '=', blo, bhi);
    let semi = find_char_in(v, ';', blo, bhi);
    let dest_hi: usize = match eq {
        Some(e) => e,
        None => blo,
    };
    let comp_lo: usize = match eq {
        Some(e) => e + 1,
        None => blo,
    };
    let comp_hi: usize = match semi {
        Some(sm) => sm,
        None => bhi,
    };
    if comp_lo > comp_hi {
        return Err(ParseError::MalformedLine);
    }
    proof {
        assert(v@.subrange(blo as int, dest_hi as int) =~= body.subrange(
            0,
            (dest_hi - blo) as int,
        ));
        assert(v@.subrange(comp_lo as int, comp_hi as int) =~= body.subrange(
            (comp_lo - blo) as int,
            (comp_hi - blo) as int,
        ));
        if eq is None {
            assert(v@.subrange(blo as int, blo as int) =~= Seq::<char>::empty());
        }
    }
    let dest = match parse_dest(v, blo, dest_hi) {
        Ok(d) => d,
        Err(c) => {
            return Err(ParseError::UnknownDestination(c));
        },
    };
    let (comp, should_deref) = match parse_comp(v, comp_lo, comp_hi) {
        Some(x) => x,
        None => {
            return Err(
                ParseError::UnknownComputation(line.substring_char(comp_lo, comp_hi).to_owned()),
            );
        },
    };
    let jump = match semi {
        None => Jump::Null,
        Some(sm) => {
            proof {
                assert(v@.subrange((sm + 1) as int, bhi as int) =~= body.subrange(
                    (sm + 1 - blo) as int,
                    body.len() as int,
                ));
            }
            match parse_jump(v, sm + 1, bhi) {
                Some(j) => j,
                None => {
                    return Err(
                        ParseError::UnknownJump(line.substring_char(sm + 1, bhi).to_owned()),
                    );
                },
            }
        },
    };
    Ok(Asm::Compute { dest, should_deref, comp, jump })
}

impl AsmLine {
    /// Parses one source line into its instruction and trailing comment.
    /// The error, if any, is the one the offending piece raises: an unknown
    /// destination character, computation or jump mnemonic, a constant
    /// above 32767, or a line shape that fits no instruction form.
    #[verifier::rlimit(100)]
    pub fn from_str(line: &str) -> (r: Result<AsmLine, ParseError>)
        ensures
            match r {
                Ok(al) => spec_parse_line(line@) == Ok::<AsmLineView, ParseErrorView>(al@),
                Err(e) => spec_parse_line(line@) == Err::<AsmLineView, ParseErrorView>(e@),
            },
    {
        let v = chars_of(line);
        let n = v.len();
        let mut body_hi: usize = n;
        let mut comment: Option<String> = None;
        match find_comment(&v) {
            Some(i) => {
                body_hi = i;
                let (clo, chi) = trim_range(&v, i + 2, n);
                if clo < chi {
                    comment = Some(line.substring_char(clo, chi).to_owned());
                }
            },
            None => {},
        }
        let (blo, bhi) = trim_range(&v, 0, body_hi);
        let ghost body = spec_trim(
            match spec_comment_from(line@, 0) {
                Some(i) => line@.subrange(0, i),
                None => line@,
            },
        );
        proof {
            assert(v@.subrange(0, n as int) =~= line@);
            assert(v@.subrange(blo as int, bhi as int) == body);
        }
        let instruction: Asm = if blo == bhi {
            Asm::EmptyLine
        } else if v[blo] == '@' {
            let (alo, ahi) = trim_range(&v, blo + 1, bhi);
            let ghost addr = spec_trim(body.subrange(1, body.len() as int));
            proof {
                assert(v@.subrange((blo + 1) as int, bhi as int) =~= body.subrange(
                    1,
                    body.len() as int,
                ));
                assert(v@.subrange(alo as int, ahi as int) == addr);
            }
            match parse_dec_token(&v, alo, ahi) {
                Some(value) => {
                    if value > 32767 {
                        let payload: u32 = if value > 0xFFFF_FFFF {
                            0xFFFF_FFFF
                        } else {
                            value as u32
                        };
                        return Err(ParseError::ConstantOutOfRange(payload));
                    }
                    Asm::LoadAddress(MemoryLocation::Numeric(value as u16))
                },
                None => Asm::LoadAddress(
                    MemoryLocation::Variable(line.substring_char(alo, ahi).to_owned()),
                ),
            }
        } else if bhi - blo >= 2 && v[blo] == '(' && v[bhi - 1] == ')' {
            let (llo, lhi) = trim_range(&v, blo + 1, bhi - 1);
            proof {
                assert(v@.subrange((blo + 1) as int, (bhi - 1) as int) =~= body.subrange(
                    1,
                    body.len() - 1,
                ));
            }
            Asm::Label(line.substring_char(llo, lhi).to_owned())
        } else {
            match parse_compute_range(&v, line, blo, bhi) {
                Ok(a) => a,
                Err(e) => {
                    return Err(e);
                },
            }
        };
        Ok(AsmLine { instruction, comment })
    }
}


/// The characters of each line.
pub open spec fn views_of(lines: Seq<String>) -> Seq<Seq<char>> {
    Seq::new(lines.len(), |i: int| lines[i]@)
}

/// The mathematical value of each parsed line.
pub open spec fn parsed_views(p: Seq<AsmLine>) -> Seq<AsmLineView> {
    Seq::new(p.len(), |i: int| p[i]@)
}

/// The mathematical value of a debug line map.
pub open spec fn mappings_views(m: Seq<(usize, String)>) -> Seq<(int, Seq<char>)> {
    Seq::new(m.len(), |i: int| (m[i].0 as int, m[i].1@))
}

/// What parsing every line yields: the parsed lines, or the first parse
/// error together with its 1-based line number.
pub open spec fn spec_parse_all(lv: Seq<Seq<char>>) -> Result<
    Seq<AsmLineView>,
    (int, ParseErrorView),
>
    decreases lv.len(),
{
    if lv.len() == 0 {
        Ok(Seq::empty())
    } else {
        match spec_parse_all(lv.drop_last()) {
            Err(e) => Err(e),
            Ok(pre) => match spec_parse_line(lv.last()) {
                Ok(al) => Ok(pre.push(al)),
                Err(e) => Err((lv.len() as int, e)),
            },
        }
    }
}

/// A parse failure on line `k` (with every earlier line parsing) is the
/// error of the whole program.
proof fn lemma_parse_all_err(lv: Seq<Seq<char>>, k: int)
    requires
        0 <= k < lv.len(),
        spec_parse_all(lv.subrange(0, k)) is Ok,
        spec_parse_line(lv[k]) is Err,
    ensures
        spec_parse_all(lv) == Err::<Seq<AsmLineView>, (int, ParseErrorView)>(
            (k + 1, spec_parse_line(lv[k])->Err_0),
        ),
    decreases lv.len(),
{
    if k == lv.len() - 1 {
        assert(lv.subrange(0, k) =~= lv.drop_last());
    } else {
        assert(lv.drop_last().subrange(0, k) =~= lv.subrange(0, k));
        assert(lv.drop_last()[k] == lv[k]);
        lemma_parse_all_err(lv.drop_last(), k);
    }
}

/// The preset symbols: the sixteen register aliases, the five pointer
/// names, and the two memory-mapped device addresses.
pub open spec fn spec_predefined() -> Map<Seq<char>, u16> {
    Map::empty().insert("R0"@, 0).insert("R1"@, 1).insert("R2"@, 2).insert("R3"@, 3).insert(
        "R4"@,
        4,
    ).insert("R5"@, 5).insert("R6"@, 6).insert("R7"@, 7).insert("R8"@, 8).insert("R9"@, 9).insert(
        "R10"@,
        10,
    ).insert("R11"@, 11).insert("R12"@, 12).insert("R13"@, 13).insert("R14"@, 14).insert(
        "R15"@,
        15,
    ).insert("SP"@, 0).insert("LCL"@, 1).insert("ARG"@, 2).insert("THIS"@, 3).insert(
        "THAT"@,
        4,
    ).insert("SCREEN"@, 0x4000).insert("KBD"@, 0x6000)
}

/// Whether a parsed line emits a machine word.
pub open spec fn emits(a: AsmView) -> bool {
    a is LoadAddress || a is Compute
}

/// How many machine words a parsed program emits.
pub open spec fn spec_emit_count(p: Seq<AsmLineView>) -> nat
    decreases p.len(),
{
    if p.len() == 0 {
        0
    } else {
        spec_emit_count(p.drop_last()) + (if emits(p.last().instruction) {
            1nat
        } else {
            0nat
        })
    }
}

/// Pass one: walking the parsed lines binds each label to the count of
/// words emitted before it.
pub open spec fn spec_labels(p: Seq<AsmLineView>, base: Map<Seq<char>, u16>) -> Map<Seq<char>, u16>
    decreases p.len(),
{
    if p.len() == 0 {
        base
    } else {
        let m = spec_labels(p.drop_last(), base);
        match p.last().instruction {
            AsmView::Label(l) => m.insert(l, (spec_emit_count(p.drop_last()) % 0x10000) as u16),
            _ => m,
        }
    }
}

/// The running state of pass two: the symbol table, the next free
/// variable address, the words emitted so far, and the debug map.
pub ghost struct Pass2 {
    pub symbols: Map<Seq<char>, u16>,
    pub ram: u16,
    pub words: Seq<HackWord>,
    pub mappings: Seq<(int, Seq<char>)>,
}

/// Pass two on one parsed line: an address or compute line emits its word
/// (an unbound variable is first bound to the next free address, from 16
/// up); labels and blank lines emit nothing.
pub open spec fn spec_pass2_step(st: Pass2, a: AsmView, lineno: int, raw: Seq<char>) -> Pass2 {
    match a {
        AsmView::LoadAddress(MemoryLocationView::Numeric(n)) => Pass2 {
            words: st.words.push(Instruction::A(n).spec_encode()),
            mappings: st.mappings.push((lineno, raw)),
            ..st
        },
        AsmView::LoadAddress(MemoryLocationView::Variable(v)) => {
            if st.symbols.contains_key(v) {
                Pass2 {
                    words: st.words.push(Instruction::A(st.symbols[v]).spec_encode()),
                    mappings: st.mappings.push((lineno, raw)),
                    ..st
                }
            } else {
                Pass2 {
                    symbols: st.symbols.insert(v, st.ram),
                    ram: vstd::wrapping::u16_specs::wrapping_add(st.ram, 1),
                    words: st.words.push(Instruction::A(st.ram).spec_encode()),
                    mappings: st.mappings.push((lineno, raw)),
                }
            }
        },
        AsmView::Compute { dest, should_deref, comp, jump } => Pass2 {
            words: st.words.push(
                Instruction::C { comp, should_deref, dest, jump }.spec_encode(),
            ),
            mappings: st.mappings.push((lineno, raw)),
            ..st
        },
        AsmView::Label(_) => st,
        AsmView::EmptyLine => st,
    }
}

/// Pass two over a parsed prefix, threading the state line by line.
pub open spec fn spec_pass2(p: Seq<AsmLineView>, lv: Seq<Seq<char>>, st: Pass2) -> Pass2
    decreases p.len(),
{
    if p.len() == 0 {
        st
    } else {
        spec_pass2_step(
            spec_pass2(p.drop_last(), lv, st),
            p.last().instruction,
            p.len() as int,
            if p.len() - 1 < lv.len() {
                lv[p.len() - 1]
            } else {
                Seq::empty()
            },
        )
    }
}

/// The state pass two starts from: the preset symbols with every label
/// bound by pass one, the first variable address 16, and nothing emitted.
pub open spec fn spec_initial(p: Seq<AsmLineView>) -> Pass2 {
    Pass2 {
        symbols: spec_labels(p, spec_predefined()),
        ram: 16,
        words: Seq::empty(),
        mappings: Seq::empty(),
    }
}

/// What assembling a parsed program yields.
pub open spec fn spec_compile(p: Seq<AsmLineView>, lv: Seq<Seq<char>>) -> Pass2 {
    spec_pass2(p, lv, spec_initial(p))
}

/// The translator's debug output: the final symbol table, and for each
/// emitted word its 1-based source line number and raw source text.
pub struct AsmDebug {
    pub symbols: SymbolTable,
    pub line_mappings: Vec<(usize, String)>,
}

/// The preset symbol table.
fn predefined_table() -> (r: SymbolTable)
    ensures
        r.wf(),
        r@ == spec_predefined(),
{
    let mut st = SymbolTable::new();
    st.insert(String::from_str("R0"), 0);
    st.insert(String::from_str("R1"), 1);
    st.insert(String::from_str("R2"), 2);
    st.insert(String::from_str("R3"), 3);
    st.insert(String::from_str("R4"), 4);
    st.insert(String::from_str("R5"), 5);
    st.insert(String::from_str("R6"), 6);
    st.insert(String::from_str("R7"), 7);
    st.insert(String::from_str("R8"), 8);
    st.insert(String::from_str("R9"), 9);
    st.insert(String::from_str("R10"), 10);
    st.insert(String::from_str("R11"), 11);
    st.insert(String::from_str("R12"), 12);
    st.insert(String::from_str("R13"), 13);
    st.insert(String::from_str("R14"), 14);
    st.insert(String::from_str("R15"), 15);
    st.insert(String::from_str("SP"), 0);
    st.insert(String::from_str("LCL"), 1);
    st.insert(String::from_str("ARG"), 2);
    st.insert(String::from_str("THIS"), 3);
    st.insert(String::from_str("THAT"), 4);
    st.insert(String::from_str("SCREEN"), 0x4000);
    st.insert(String::from_str("KBD"), 0x6000);
    st
}

/// Translates a program, line by line, into machine words: every line is
/// parsed, pass one binds the labels, pass two emits one word per address
/// or compute line, binding unbound variables to fresh addresses from 16
/// up. Presets, labels and variables share one namespace: a later label
/// binding overwrites an earlier one, a preset among them, and a variable
/// reference reuses whatever binding its name already has. With `debug`
/// set, the final symbol table and the per-word source map come along.
/// The first parse error, with its 1-based line number, fails the whole
/// translation.
pub fn compile(asm_lines: Vec<String>, debug: bool) -> (r: Result<
    (Vec<HackWord>, Option<AsmDebug>),
    CompileError,
>)
    ensures
        ({
            let lv = views_of(asm_lines@);
            match r {
                Ok(out) => {
                    &&& spec_parse_all(lv) is Ok
                    &&& ({
                        let st = spec_compile(spec_parse_all(lv)->Ok_0, lv);
                        &&& out.0@ == st.words
                        &&& (out.1 is Some <==> debug)
                        &&& (match out.1 {
                            Some(dbg) => dbg.symbols.wf() && dbg.symbols@ == st.symbols
                                && mappings_views(dbg.line_mappings@) == st.mappings,
                            None => true,
                        })
                    })
                },
                Err(ce) => spec_parse_all(lv) == Err::<Seq<AsmLineView>, (int, ParseErrorView)>(
                    (ce.line as int, ce.error@),
                ),
            }
        }),
{
    let ghost lv = views_of(asm_lines@);
    let mut parsed: Vec<AsmLine> = Vec::new();
    proof {
        assert(lv.subrange(0, 0) =~= Seq::<Seq<char>>::empty());
        assert(parsed_views(parsed@) =~= Seq::<AsmLineView>::empty());
    }
    let mut idx: usize = 0;
    while idx < asm_lines.len()
        invariant
            idx <= asm_lines@.len(),
            lv == views_of(asm_lines@),
            parsed@.len() == idx,
            spec_parse_all(lv.subrange(0, idx as int)) == Ok::<
                Seq<AsmLineView>,
                (int, ParseErrorView),
            >(parsed_views(parsed@)),
        decreases asm_lines@.len() - idx,
    {
        match AsmLine::from_str(asm_lines[idx].as_str()) {
            Ok(al) => {
                let ghost before = parsed@;
                parsed.push(al);
                proof {
                    assert(parsed@.drop_last() =~= before);
                    assert(parsed_views(parsed@) =~= parsed_views(before).push(parsed@.last()@));
                    assert(lv.subrange(0, (idx + 1) as int).drop_last() =~= lv.subrange(
                        0,
                        idx as int,
                    ));
                }
            },
            Err(e) => {
                proof {
                    lemma_parse_all_err(lv, idx as int);
                }
                return Err(CompileError { line: idx + 1, error: e });
            },
        }
        idx = idx + 1;
    }
    proof {
        assert(lv.subrange(0, asm_lines@.len() as int) =~= lv);
    }
    let ghost p = parsed_views(parsed@);
    let mut symbols = predefined_table();
    let mut count: usize = 0;
    proof {
        assert(p.subrange(0, 0) =~= Seq::<AsmLineView>::empty());
    }
    let mut j: usize = 0;
    while j < parsed.len()
        invariant
            j <= parsed@.len(),
            p == parsed_views(parsed@),
            symbols.wf(),
            symbols@ == spec_labels(p.subrange(0, j as int), spec_predefined()),
            count == spec_emit_count(p.subrange(0, j as int)),
            count <= j,
        decreases parsed@.len() - j,
    {
        let al = &parsed[j];
        match &al.instruction {
            Asm::Label(l) => {
                symbols.insert(l.clone(), (count % 0x10000) as u16);
            },
            Asm::EmptyLine => {},
            _ => {
                count = count + 1;
            },
        }
        j = j + 1;
        proof {
            assert(p.subrange(0, j as int).drop_last() =~= p.subrange(0, (j - 1) as int));
            assert(p.subrange(0, j as int).last() == parsed@[(j - 1) as int]@);
        }
    }
    proof {
        assert(p.subrange(0, parsed@.len() as int) =~= p);
    }
    let mut words: Vec<HackWord> = Vec::new();
    let mut mappings: Vec<(usize, String)> = Vec::new();
    let mut ram: u16 = 16;
    proof {
        assert(mappings_views(mappings@) =~= Seq::<(int, Seq<char>)>::empty());
    }
    let mut k: usize = 0;
    while k < parsed.len()
        invariant
            k <= parsed@.len(),
            parsed@.len() == asm_lines@.len(),
            p == parsed_views(parsed@),
            lv == views_of(asm_lines@),
            symbols.wf(),
            ({
                let st = spec_pass2(p.subrange(0, k as int), lv, spec_initial(p));
                &&& symbols@ == st.symbols
                &&& ram == st.ram
                &&& words@ == st.words
                &&& (debug ==> mappings_views(mappings@) == st.mappings)
            }),
        decreases parsed@.len() - k,
    {
        let al = &parsed[k];
        match &al.instruction {
            Asm::LoadAddress(loc) => {
                if debug {
                    let ghost before_m = mappings@;
                    mappings.push((k + 1, asm_lines[k].clone()));
                    proof {
                        assert(mappings@.drop_last() =~= before_m);
                        assert(mappings_views(mappings@) =~= mappings_views(before_m).push(
                            ((k + 1) as int, asm_lines@[k as int]@),
                        ));
                    }
                }
                let n: u16 = match loc {
                    MemoryLocation::Numeric(num) => *num,
                    MemoryLocation::Variable(v) => {
                        match symbols.get(v) {
                            Some(a) => a,
                            None => {
                                let a = ram;
                                symbols.insert(v.clone(), a);
                                ram = ram.wrapping_add(1);
                                a
                            },
                        }
                    },
                };
                words.push(Instruction::A(n).encode());
            },
            Asm::Compute { dest, should_deref, comp, jump } => {
                if debug {
                    let ghost before_m = mappings@;
                    mappings.push((k + 1, asm_lines[k].clone()));
                    proof {
                        assert(mappings@.drop_last() =~= before_m);
                        assert(mappings_views(mappings@) =~= mappings_views(before_m).push(
                            ((k + 1) as int, asm_lines@[k as int]@),
                        ));
                    }
                }
                words.push(
                    Instruction::C {
                        comp: *comp,
                        should_deref: *should_deref,
                        dest: *dest,
                        jump: *jump,
                    }.encode(),
                );
            },
            Asm::Label(_) => {},
            Asm::EmptyLine => {},
        }
        k = k + 1;
        proof {
            assert(p.subrange(0, k as int).drop_last() =~= p.subrange(0, (k - 1) as int));
            assert(p.subrange(0, k as int).last() == parsed@[(k - 1) as int]@);
        }
    }
    proof {
        assert(p.subrange(0, parsed@.len() as int) =~= p);
    }
    let debug_info: Option<AsmDebug> = if debug {
        Some(AsmDebug { symbols, line_mappings: mappings })
    } else {
        None
    };
    Ok((words, debug_info))
}


/// A line of source text with one carriage return before its end dropped.
pub open spec fn spec_strip_cr(l: Seq<char>) -> Seq<char> {
    if l.len() > 0 && l.last() == '\r' {
        l.drop_last()
    } else {
        l
    }
}

/// Splitting source text into lines, reading from `pos`: a line ends at
/// each newline (a carriage return just before it is dropped), and text
/// after the last newline is a final line unless it is empty.
pub open spec fn spec_lines_from(s: Seq<char>, pos: nat) -> Seq<Seq<char>>
    decreases s.len() - pos,
{
    if pos >= s.len() {
        Seq::empty()
    } else {
        match spec_find_from(s, '\n', pos) {
            Some(i) => if pos <= i < s.len() {
                seq![spec_strip_cr(s.subrange(pos as int, i))] + spec_lines_from(s, (i + 1) as nat)
            } else {
                Seq::empty()
            },
            None => seq![spec_strip_cr(s.subrange(pos as int, s.len() as int))],
        }
    }
}

/// The first newline at or after `from`, if any.
fn find_newline(s: &str, from: usize) -> (r: Option<usize>)
    requires
        from <= s@.len(),
    ensures
        match r {
            Some(i) => from <= i < s@.len() && spec_find_from(s@, '\n', from as nat) == Some(
                i as int,
            ),
            None => spec_find_from(s@, '\n', from as nat) is None,
        },
{
    let n = s.unicode_len();
    let mut i = from;
    while i < n
        invariant
            from <= i <= n,
            n == s@.len(),
            spec_find_from(s@, '\n', from as nat) == spec_find_from(s@, '\n', i as nat),
        decreases n - i,
    {
        if s.get_char(i) == '\n' {
            return Some(i);
        }
        i = i + 1;
    }
    None
}

/// Splits source text into lines the way the translator reads it.
pub fn split_lines(s: &str) -> (r: Vec<String>)
    ensures
        views_of(r@) == spec_lines_from(s@, 0),
{
    let n = s.unicode_len();
    let mut r: Vec<String> = Vec::new();
    proof {
        assert(views_of(r@) =~= Seq::<Seq<char>>::empty());
    }
    let mut pos: usize = 0;
    while pos < n
        invariant
            pos <= n,
            n == s@.len(),
            views_of(r@) + spec_lines_from(s@, pos as nat) == spec_lines_from(s@, 0),
        decreases n - pos,
    {
        let ghost before = r@;
        let ghost oldpos = pos as nat;
        match find_newline(s, pos) {
            Some(i) => {
                let end = if i > pos && s.get_char(i - 1) == '\r' {
                    i - 1
                } else {
                    i
                };
                r.push(s.substring_char(pos, end).to_owned());
                proof {
                    if i > pos && s@[i - 1] == '\r' {
                        assert(s@.subrange(pos as int, i as int).drop_last() =~= s@.subrange(
                            pos as int,
                            (i - 1) as int,
                        ));
                    }
                    assert(s@.subrange(pos as int, end as int) == spec_strip_cr(
                        s@.subrange(pos as int, i as int),
                    ));
                    assert(views_of(r@) =~= views_of(before).push(
                        spec_strip_cr(s@.subrange(pos as int, i as int)),
                    ));
                    assert(views_of(r@) + spec_lines_from(s@, (i + 1) as nat) =~= views_of(before)
                        + spec_lines_from(s@, oldpos));
                }
                pos = i + 1;
            },
            None => {
                let end = if n > pos && s.get_char(n - 1) == '\r' {
                    n - 1
                } else {
                    n
                };
                r.push(s.substring_char(pos, end).to_owned());
                proof {
                    if n > pos && s@[n - 1] == '\r' {
                        assert(s@.subrange(pos as int, n as int).drop_last() =~= s@.subrange(
                            pos as int,
                            (n - 1) as int,
                        ));
                    }
                    assert(s@.subrange(pos as int, end as int) == spec_strip_cr(
                        s@.subrange(pos as int, n as int),
                    ));
                    assert(views_of(r@) =~= views_of(before).push(
                        spec_strip_cr(s@.subrange(pos as int, n as int)),
                    ));
                    assert(views_of(r@) + spec_lines_from(s@, n as nat) =~= views_of(before)
                        + spec_lines_from(s@, oldpos));
                }
                pos = n;
            },
        }
    }
    proof {
        assert(views_of(r@) + spec_lines_from(s@, pos as nat) =~= views_of(r@));
    }
    r
}

/// Translates whole source text: its lines, assembled. Only the words
/// come back; the first parse error, with its 1-based line number, fails
/// the translation.
pub fn compile_lines(source: &str) -> (r: Result<Vec<HackWord>, CompileError>)
    ensures
        ({
            let lv = spec_lines_from(source@, 0);
            match r {
                Ok(words) => spec_parse_all(lv) is Ok && words@ == spec_compile(
                    spec_parse_all(lv)->Ok_0,
                    lv,
                ).words,
                Err(ce) => spec_parse_all(lv) == Err::<Seq<AsmLineView>, (int, ParseErrorView)>(
                    (ce.line as int, ce.error@),
                ),
            }
        }),
{
    let lines = split_lines(source);
    match compile(lines, false) {
        Ok(out) => Ok(out.0),
        Err(e) => Err(e),
    }
}


/// Pass two emits exactly one word per emitting line.
proof fn lemma_pass2_length(p: Seq<AsmLineView>, lv: Seq<Seq<char>>, st: Pass2)
    ensures
        spec_pass2(p, lv, st).words.len() == st.words.len() + spec_emit_count(p),
    decreases p.len(),
{
    if p.len() > 0 {
        lemma_pass2_length(p.drop_last(), lv, st);
    }
}

/// Law: for every program that assembles, the output length equals the
/// count of its address and compute lines; labels and blank lines emit
/// nothing.
pub proof fn lemma_compile_output_length(p: Seq<AsmLineView>, lv: Seq<Seq<char>>)
    ensures
        spec_compile(p, lv).words.len() == spec_emit_count(p),
{
    lemma_pass2_length(p, lv, spec_initial(p));
}

/// Pass two preserves every existing binding, and binds each new name to
/// an address between the starting and the final free-variable address,
/// which never wraps when the line count keeps it below the 16-bit limit.
proof fn lemma_pass2_symbols(p: Seq<AsmLineView>, lv: Seq<Seq<char>>, st: Pass2, k: Seq<char>)
    requires
        st.ram as int + p.len() <= 65535,
    ensures
        ({
            let fin = spec_pass2(p, lv, st);
            &&& st.ram <= fin.ram
            &&& fin.ram as int <= st.ram as int + p.len()
            &&& (st.symbols.contains_key(k) ==> fin.symbols.contains_key(k) && fin.symbols[k]
                == st.symbols[k])
            &&& (fin.symbols.contains_key(k) ==> (st.symbols.contains_key(k) && fin.symbols[k]
                == st.symbols[k]) || (st.ram <= fin.symbols[k] && fin.symbols[k] < fin.ram))
        }),
    decreases p.len(),
{
    if p.len() > 0 {
        lemma_pass2_symbols(p.drop_last(), lv, st, k);
    }
}

/// Pass one leaves a name no label binds exactly as the base had it.
proof fn lemma_labels_untouched(p: Seq<AsmLineView>, base: Map<Seq<char>, u16>, k: Seq<char>)
    requires
        forall|j: int|
            0 <= j < p.len() ==> !((#[trigger] p[j]).instruction matches AsmView::Label(l) && l
                == k),
    ensures
        spec_labels(p, base).contains_key(k) == base.contains_key(k),
        base.contains_key(k) ==> spec_labels(p, base)[k] == base[k],
    decreases p.len(),
{
    if p.len() > 0 {
        assert(forall|j: int| 0 <= j < p.drop_last().len() ==> #[trigger] p.drop_last()[j] == p[j]);
        lemma_labels_untouched(p.drop_last(), base, k);
        assert(!(p[p.len() - 1].instruction matches AsmView::Label(l) && l == k));
    }
}

/// Law: after a successful assembly the symbol table holds every label at
/// its pass-one address, every other newly bound name -- the
/// auto-allocated variables -- at an address of at least 16, and every
/// preset that no label rebinds at its preset address.
pub proof fn lemma_symbols_after_assembly(p: Seq<AsmLineView>, lv: Seq<Seq<char>>, k: Seq<char>)
    requires
        p.len() <= 65519,
    ensures
        ({
            let labels = spec_labels(p, spec_predefined());
            let fin = spec_compile(p, lv);
            &&& (labels.contains_key(k) ==> fin.symbols.contains_key(k) && fin.symbols[k]
                == labels[k])
            &&& (fin.symbols.contains_key(k) && !labels.contains_key(k) ==> fin.symbols[k] >= 16)
            &&& (spec_predefined().contains_key(k) && (forall|j: int|
                0 <= j < p.len() ==> !((#[trigger] p[j]).instruction matches AsmView::Label(l)
                    && l == k)) ==> fin.symbols.contains_key(k) && fin.symbols[k]
                == spec_predefined()[k])
        }),
{
    lemma_pass2_symbols(p, lv, spec_initial(p), k);
    if spec_predefined().contains_key(k) && (forall|j: int|
        0 <= j < p.len() ==> !((#[trigger] p[j]).instruction matches AsmView::Label(l) && l
            == k)) {
        lemma_labels_untouched(p, spec_predefined(), k);
    }
}


/// The character of one decimal digit.
pub open spec fn digit_char(d: int) -> char {
    if d == 0 {
        '0'
    } else if d == 1 {
        '1'
    } else if d == 2 {
        '2'
    } else if d == 3 {
        '3'
    } else if d == 4 {
        '4'
    } else if d == 5 {
        '5'
    } else if d == 6 {
        '6'
    } else if d == 7 {
        '7'
    } else if d == 8 {
        '8'
    } else {
        '9'
    }
}

/// The canonical decimal digits of `n`, most significant first.
pub open spec fn spec_dec_string(n: u16) -> Seq<char>
    decreases n,
{
    if n < 10 {
        seq![digit_char(n as int)]
    } else {
        spec_dec_string((n / 10) as u16).push(digit_char((n % 10) as int))
    }
}

/// The canonical text of a destination set, in the order `A`, `D`, `M`.
pub open spec fn spec_dest_chars(d: Dest) -> Seq<char> {
    (if d.a {
        seq!['A']
    } else {
        Seq::empty()
    }) + (if d.d {
        seq!['D']
    } else {
        Seq::empty()
    }) + (if d.m {
        seq!['M']
    } else {
        Seq::empty()
    })
}

/// The canonical mnemonic of a computation: the `M`-form when the
/// memory-operand bit is set on an operation with an `A` operand.
pub open spec fn spec_comp_chars(comp: Comp, should_deref: bool) -> Seq<char> {
    match comp {
        Comp::Zero => seq!['0'],
        Comp::One => seq!['1'],
        Comp::MinusOne => seq!['-', '1'],
        Comp::D => seq!['D'],
        Comp::A => if should_deref {
            seq!['M']
        } else {
            seq!['A']
        },
        Comp::NotD => seq!['!', 'D'],
        Comp::NotA => if should_deref {
            seq!['!', 'M']
        } else {
            seq!['!', 'A']
        },
        Comp::MinusD => seq!['-', 'D'],
        Comp::MinusA => if should_deref {
            seq!['-', 'M']
        } else {
            seq!['-', 'A']
        },
        Comp::DPlus1 => seq!['D', '+', '1'],
        Comp::APlus1 => if should_deref {
            seq!['M', '+', '1']
        } else {
            seq!['A', '+', '1']
        },
        Comp::DMinus1 => seq!['D', '-', '1'],
        Comp::AMinus1 => if should_deref {
            seq!['M', '-', '1']
        } else {
            seq!['A', '-', '1']
        },
        Comp::DPlusA => if should_deref {
            seq!['D', '+', 'M']
        } else {
            seq!['D', '+', 'A']
        },
        Comp::DMinusA => if should_deref {
            seq!['D', '-', 'M']
        } else {
            seq!['D', '-', 'A']
        },
        Comp::AMinusD => if should_deref {
            seq!['M', '-', 'D']
        } else {
            seq!['A', '-', 'D']
        },
        Comp::DAndA => if should_deref {
            seq!['D', '&', 'M']
        } else {
            seq!['D', '&', 'A']
        },
        Comp::DOrA => if should_deref {
            seq!['D', '|', 'M']
        } else {
            seq!['D', '|', 'A']
        },
    }
}

/// The canonical mnemonic of a jump condition; an absent jump has none.
pub open spec fn spec_jump_chars(j: Jump) -> Seq<char> {
    match j {
        Jump::Null => Seq::empty(),
        Jump::JGT => seq!['J', 'G', 'T'],
        Jump::JEQ => seq!['J', 'E', 'Q'],
        Jump::JGE => seq!['J', 'G', 'E'],
        Jump::JLT => seq!['J', 'L', 'T'],
        Jump::JNE => seq!['J', 'N', 'E'],
        Jump::JLE => seq!['J', 'L', 'E'],
        Jump::JMP => seq!['J', 'M', 'P'],
    }
}

/// Whether an instruction has a canonical assembly text. The
/// memory-operand bit is expressible only on the ten operations with an
/// `A` operand: the mnemonic table has no `M`-form of the others.
pub open spec fn spec_expressible(i: Instruction) -> bool {
    match i {
        Instruction::A(n) => n <= 32767,
        Instruction::C { comp, should_deref, dest, jump } => should_deref ==> (comp is A || comp
            is NotA || comp is MinusA || comp is APlus1 || comp is AMinus1 || comp is DPlusA
            || comp is DMinusA || comp is AMinusD || comp is DAndA || comp is DOrA),
    }
}

/// The canonical assembly text of an instruction: `@n` for an address
/// load, else `[DEST=]COMP[;JUMP]` with an empty destination and an
/// absent jump left out.
pub open spec fn spec_disassemble(i: Instruction) -> Seq<char> {
    match i {
        Instruction::A(n) => seq!['@'] + spec_dec_string(n),
        Instruction::C { comp, should_deref, dest, jump } => {
            let dest_part = if dest.a || dest.d || dest.m {
                spec_dest_chars(dest) + seq!['=']
            } else {
                Seq::empty()
            };
            let jump_part = if jump is Null {
                Seq::empty()
            } else {
                seq![';'] + spec_jump_chars(jump)
            };
            dest_part + spec_comp_chars(comp, should_deref) + jump_part
        },
    }
}

/// The parsed form a disassembled instruction denotes.
pub open spec fn spec_asm_of(i: Instruction) -> AsmView {
    match i {
        Instruction::A(n) => AsmView::LoadAddress(MemoryLocationView::Numeric(n)),
        Instruction::C { comp, should_deref, dest, jump } => AsmView::Compute {
            dest,
            should_deref,
            comp,
            jump,
        },
    }
}

/// Appends the decimal digits of `n`.
fn push_decimal(s: &mut String, n: u16)
    ensures
        final(s)@ == old(s)@ + spec_dec_string(n),
    decreases n,
{
    if n >= 10 {
        push_decimal(s, n / 10);
    }
    let ghost mid = s@;
    let d = n % 10;
    if d == 0 {
        proof {
            reveal_strlit("0");
            assert("0"@ =~= seq!['0']);
        }
        s.append("0");
    } else if d == 1 {
        proof {
            reveal_strlit("1");
            assert("1"@ =~= seq!['1']);
        }
        s.append("1");
    } else if d == 2 {
        proof {
            reveal_strlit("2");
            assert("2"@ =~= seq!['2']);
        }
        s.append("2");
    } else if d == 3 {
        proof {
            reveal_strlit("3");
            assert("3"@ =~= seq!['3']);
        }
        s.append("3");
    } else if d == 4 {
        proof {
            reveal_strlit("4");
            assert("4"@ =~= seq!['4']);
        }
        s.append("4");
    } else if d == 5 {
        proof {
            reveal_strlit("5");
            assert("5"@ =~= seq!['5']);
        }
        s.append("5");
    } else if d == 6 {
        proof {
            reveal_strlit("6");
            assert("6"@ =~= seq!['6']);
        }
        s.append("6");
    } else if d == 7 {
        proof {
            reveal_strlit("7");
            assert("7"@ =~= seq!['7']);
        }
        s.append("7");
    } else if d == 8 {
        proof {
            reveal_strlit("8");
            assert("8"@ =~= seq!['8']);
        }
        s.append("8");
    } else if d == 9 {
        proof {
            reveal_strlit("9");
            assert("9"@ =~= seq!['9']);
        }
        s.append("9");
    } else {
        proof {
            reveal_strlit("9");
            assert("9"@ =~= seq!['9']);
        }
        s.append("9");
    }
    proof {
        assert(s@ =~= old(s)@ + spec_dec_string(n));
    }
}

/// The canonical mnemonic of a computation.
fn comp_str(comp: Comp, should_deref: bool) -> (r: &'static str)
    ensures
        r@ == spec_comp_chars(comp, should_deref),
{
    match comp {
        Comp::Zero => {
            proof {
                reveal_strlit("0");
                assert("0"@ =~= seq!['0']);
            }
            "0"
        },
        Comp::One => {
            proof {
                reveal_strlit("1");
                assert("1"@ =~= seq!['1']);
            }
            "1"
        },
        Comp::MinusOne => {
            proof {
                reveal_strlit("-1");
                assert("-1"@ =~= seq!['-', '1']);
            }
            "-1"
        },
        Comp::D => {
            proof {
                reveal_strlit("D");
                assert("D"@ =~= seq!['D']);
            }
            "D"
        },
        Comp::A => if should_deref {
            proof {
                reveal_strlit("M");
                assert("M"@ =~= seq!['M']);
            }
            "M"
        } else {
            proof {
                reveal_strlit("A");
                assert("A"@ =~= seq!['A']);
            }
            "A"
        },
        Comp::NotD => {
            proof {
                reveal_strlit("!D");
                assert("!D"@ =~= seq!['!', 'D']);
            }
            "!D"
        },
        Comp::NotA => if should_deref {
            proof {
                reveal_strlit("!M");
                assert("!M"@ =~= seq!['!', 'M']);
            }
            "!M"
        } else {
            proof {
                reveal_strlit("!A");
                assert("!A"@ =~= seq!['!', 'A']);
            }
            "!A"
        },
        Comp::MinusD => {
            proof {
                reveal_strlit("-D");
                assert("-D"@ =~= seq!['-', 'D']);
            }
            "-D"
        },
        Comp::MinusA => if should_deref {
            proof {
                reveal_strlit("-M");
                assert("-M"@ =~= seq!['-', 'M']);
            }
            "-M"
        } else {
            proof {
                reveal_strlit("-A");
                assert("-A"@ =~= seq!['-', 'A']);
            }
            "-A"
        },
        Comp::DPlus1 => {
            proof {
                reveal_strlit("D+1");
                assert("D+1"@ =~= seq!['D', '+', '1']);
            }
            "D+1"
        },
        Comp::APlus1 => if should_deref {
            proof {
                reveal_strlit("M+1");
                assert("M+1"@ =~= seq!['M', '+', '1']);
            }
            "M+1"
        } else {
            proof {
                reveal_strlit("A+1");
                assert("A+1"@ =~= seq!['A', '+', '1']);
            }
            "A+1"
        },
        Comp::DMinus1 => {
            proof {
                reveal_strlit("D-1");
                assert("D-1"@ =~= seq!['D', '-', '1']);
            }
            "D-1"
        },
        Comp::AMinus1 => if should_deref {
            proof {
                reveal_strlit("M-1");
                assert("M-1"@ =~= seq!['M', '-', '1']);
            }
            "M-1"
        } else {
            proof {
                reveal_strlit("A-1");
                assert("A-1"@ =~= seq!['A', '-', '1']);
            }
            "A-1"
        },
        Comp::DPlusA => if should_deref {
            proof {
                reveal_strlit("D+M");
                assert("D+M"@ =~= seq!['D', '+', 'M']);
            }
            "D+M"
        } else {
            proof {
                reveal_strlit("D+A");
                assert("D+A"@ =~= seq!['D', '+', 'A']);
            }
            "D+A"
        },
        Comp::DMinusA => if should_deref {
            proof {
                reveal_strlit("D-M");
                assert("D-M"@ =~= seq!['D', '-', 'M']);
            }
            "D-M"
        } else {
            proof {
                reveal_strlit("D-A");
                assert("D-A"@ =~= seq!['D', '-', 'A']);
            }
            "D-A"
        },
        Comp::AMinusD => if should_deref {
            proof {
                reveal_strlit("M-D");
                assert("M-D"@ =~= seq!['M', '-', 'D']);
            }
            "M-D"
        } else {
            proof {
                reveal_strlit("A-D");
                assert("A-D"@ =~= seq!['A', '-', 'D']);
            }
            "A-D"
        },
        Comp::DAndA => if should_deref {
            proof {
                reveal_strlit("D&M");
                assert("D&M"@ =~= seq!['D', '&', 'M']);
            }
            "D&M"
        } else {
            proof {
                reveal_strlit("D&A");
                assert("D&A"@ =~= seq!['D', '&', 'A']);
            }
            "D&A"
        },
        Comp::DOrA => if should_deref {
            proof {
                reveal_strlit("D|M");
                assert("D|M"@ =~= seq!['D', '|', 'M']);
            }
            "D|M"
        } else {
            proof {
                reveal_strlit("D|A");
                assert("D|A"@ =~= seq!['D', '|', 'A']);
            }
            "D|A"
        },
    }
}

/// The canonical mnemonic of a jump condition other than the absent one.
fn jump_str(j: Jump) -> (r: &'static str)
    requires
        !(j is Null),
    ensures
        r@ == spec_jump_chars(j),
{
    match j {
        // never reached: the caller rules the absent jump out
        Jump::Null => {
            proof {
                reveal_strlit("JMP");
            }
            "JMP"
        },
        Jump::JGT => {
            proof {
                reveal_strlit("JGT");
                assert("JGT"@ =~= seq!['J', 'G', 'T']);
            }
            "JGT"
        },
        Jump::JEQ => {
            proof {
                reveal_strlit("JEQ");
                assert("JEQ"@ =~= seq!['J', 'E', 'Q']);
            }
            "JEQ"
        },
        Jump::JGE => {
            proof {
                reveal_strlit("JGE");
                assert("JGE"@ =~= seq!['J', 'G', 'E']);
            }
            "JGE"
        },
        Jump::JLT => {
            proof {
                reveal_strlit("JLT");
                assert("JLT"@ =~= seq!['J', 'L', 'T']);
            }
            "JLT"
        },
        Jump::JNE => {
            proof {
                reveal_strlit("JNE");
                assert("JNE"@ =~= seq!['J', 'N', 'E']);
            }
            "JNE"
        },
        Jump::JLE => {
            proof {
                reveal_strlit("JLE");
                assert("JLE"@ =~= seq!['J', 'L', 'E']);
            }
            "JLE"
        },
        Jump::JMP => {
            proof {
                reveal_strlit("JMP");
                assert("JMP"@ =~= seq!['J', 'M', 'P']);
            }
            "JMP"
        },
    }
}

impl Instruction {
    /// The canonical assembly text of the instruction.
    pub fn disassemble(&self) -> (r: String)
        ensures
            r@ == spec_disassemble(*self),
    {
        let mut s = String::new();
        match self {
            Instruction::A(n) => {
                proof {
                    reveal_strlit("@");
                    assert("@"@ =~= seq!['@']);
                }
                s.append("@");
                push_decimal(&mut s, *n);
                proof {
                    assert(s@ =~= spec_disassemble(*self));
                }
            },
            Instruction::C { comp, should_deref, dest, jump } => {
                proof {
                    reveal_strlit("A");
                    reveal_strlit("D");
                    reveal_strlit("M");
                    reveal_strlit("=");
                    reveal_strlit(";");
                    assert("A"@ =~= seq!['A']);
                    assert("D"@ =~= seq!['D']);
                    assert("M"@ =~= seq!['M']);
                    assert("="@ =~= seq!['=']);
                    assert(";"@ =~= seq![';']);
                }
                if dest.a || dest.d || dest.m {
                    if dest.a {
                        s.append("A");
                    }
                    if dest.d {
                        s.append("D");
                    }
                    if dest.m {
                        s.append("M");
                    }
                    s.append("=");
                    proof {
                        assert(s@ =~= spec_dest_chars(*dest) + seq!['=']);
                    }
                }
                s.append(comp_str(*comp, *should_deref));
                match jump {
                    Jump::Null => {},
                    _ => {
                        s.append(";");
                        s.append(jump_str(*jump));
                    },
                }
                proof {
                    assert(s@ =~= spec_disassemble(*self));
                }
            },
        }
        s
    }
}


/// A character absent from position `k` on is not found from `k`.
proof fn lemma_find_none(s: Seq<char>, c: char, k: nat)
    requires
        forall|i: int| k <= i < s.len() ==> s[i] != c,
    ensures
        spec_find_from(s, c, k) is None,
    decreases s.len() - k,
{
    if k < s.len() {
        lemma_find_none(s, c, k + 1);
    }
}

/// The first position holding `c` is where the search from `k` stops.
proof fn lemma_find_at(s: Seq<char>, c: char, k: nat, j: int)
    requires
        k <= j < s.len(),
        s[j] == c,
        forall|i: int| k <= i < j ==> s[i] != c,
    ensures
        spec_find_from(s, c, k) == Some(j),
    decreases j - k,
{
    if k < j {
        lemma_find_at(s, c, k + 1, j);
    }
}

/// Text without a slash holds no comment marker.
proof fn lemma_comment_none(s: Seq<char>, k: nat)
    requires
        forall|i: int| 0 <= i < s.len() ==> s[i] != '/',
    ensures
        spec_comment_from(s, k) is None,
    decreases s.len() - k,
{
    if k + 2 <= s.len() {
        lemma_comment_none(s, k + 1);
    }
}

/// Text without whitespace at either end trims to itself.
proof fn lemma_trim_id(s: Seq<char>)
    requires
        s.len() == 0 || (!is_space(s[0]) && !is_space(s[s.len() - 1])),
    ensures
        spec_trim(s) == s,
{
    assert(spec_skip_spaces(s, 0) == 0);
    assert(spec_skip_spaces_end(s, s.len()) == s.len());
    assert(s.subrange(0, s.len() as int) =~= s);
}

/// Each decimal digit character carries its value, 48 above it.
proof fn lemma_digit_char(d: int)
    requires
        0 <= d <= 9,
    ensures
        digit_char(d) as int == 48 + d,
        is_digit(digit_char(d)),
{
}

/// The decimal text of `n` is all digits and parses back to `n`.
proof fn lemma_dec_string(n: u16)
    ensures
        spec_dec_string(n).len() >= 1,
        forall|k: int| 0 <= k < spec_dec_string(n).len() ==> is_digit(#[trigger] spec_dec_string(n)[k]),
        spec_dec_val(spec_dec_string(n)) == n,
    decreases n,
{
    let s = spec_dec_string(n);
    if n < 10 {
        lemma_digit_char(n as int);
        assert(s.drop_last() =~= Seq::<char>::empty());
        assert(spec_dec_val(Seq::<char>::empty()) == 0);
        assert(s.last() == digit_char(n as int));
    } else {
        let q: u16 = (n / 10) as u16;
        lemma_dec_string(q);
        lemma_digit_char((n % 10) as int);
        lemma_fundamental_div_mod(n as int, 10);
        assert(s.drop_last() =~= spec_dec_string(q));
        assert(s.last() == digit_char((n % 10) as int));
        assert(spec_dec_val(s) == 10 * spec_dec_val(spec_dec_string(q)) + (n % 10));
        assert(10 * (q as int) + (n % 10) == n);
        assert(forall|k: int| 0 <= k < s.len() - 1 ==> s[k] == spec_dec_string(q)[k]);
    }
}

/// The decimal text of `n` parses as the constant `n`.
proof fn lemma_parse_dec_string(n: u16)
    ensures
        spec_dec_shape(spec_dec_string(n)),
        spec_dec_value(spec_dec_string(n)) == n,
{
    lemma_dec_string(n);
    let s = spec_dec_string(n);
    assert(is_digit(s[0]));
    assert(s[0] != '+');
    assert(crate::hackword::HackWord::spec_word_digits(s) == s);
}

/// The canonical text of a destination set reads back as that set, and
/// holds only the three flag characters.
proof fn lemma_dest_chars(dest: Dest)
    ensures
        ({
            let dc = spec_dest_chars(dest);
            &&& dc.len() <= 3
            &&& (dc.len() > 0 <==> (dest.a || dest.d || dest.m))
            &&& forall|k: int|
                0 <= k < dc.len() ==> (#[trigger] dc[k] == 'A' || dc[k] == 'D' || dc[k] == 'M')
            &&& spec_parse_dest_from(dc, 0, Dest { a: false, d: false, m: false }) == Ok::<
                Dest,
                char,
            >(dest)
        }),
{
    let dc = spec_dest_chars(dest);
        if dest.a && dest.d && dest.m {
            assert(dc =~= seq!['A', 'D', 'M']);
            assert(spec_parse_dest_from(dc, 3, Dest { a: true, d: true, m: true }) == Ok::<Dest, char>(Dest { a: true, d: true, m: true }));
            assert(spec_parse_dest_from(dc, 2, Dest { a: true, d: true, m: false }) == spec_parse_dest_from(dc, 3, Dest { a: true, d: true, m: true }));
            assert(spec_parse_dest_from(dc, 1, Dest { a: true, d: false, m: false }) == spec_parse_dest_from(dc, 2, Dest { a: true, d: true, m: false }));
            assert(spec_parse_dest_from(dc, 0, Dest { a: false, d: false, m: false }) == spec_parse_dest_from(dc, 1, Dest { a: true, d: false, m: false }));
        }
        if dest.a && dest.d && !dest.m {
            assert(dc =~= seq!['A', 'D']);
            assert(spec_parse_dest_from(dc, 2, Dest { a: true, d: true, m: false }) == Ok::<Dest, char>(Dest { a: true, d: true, m: false }));
            assert(spec_parse_dest_from(dc, 1, Dest { a: true, d: false, m: false }) == spec_parse_dest_from(dc, 2, Dest { a: true, d: true, m: false }));
            assert(spec_parse_dest_from(dc, 0, Dest { a: false, d: false, m: false }) == spec_parse_dest_from(dc, 1, Dest { a: true, d: false, m: false }));
        }
        if dest.a && !dest.d && dest.m {
            assert(dc =~= seq!['A', 'M']);
            assert(spec_parse_dest_from(dc, 2, Dest { a: true, d: false, m: true }) == Ok::<Dest, char>(Dest { a: true, d: false, m: true }));
            assert(spec_parse_dest_from(dc, 1, Dest { a: true, d: false, m: false }) == spec_parse_dest_from(dc, 2, Dest { a: true, d: false, m: true }));
            assert(spec_parse_dest_from(dc, 0, Dest { a: false, d: false, m: false }) == spec_parse_dest_from(dc, 1, Dest { a: true, d: false, m: false }));
        }
        if dest.a && !dest.d && !dest.m {
            assert(dc =~= seq!['A']);
            assert(spec_parse_dest_from(dc, 1, Dest { a: true, d: false, m: false }) == Ok::<Dest, char>(Dest { a: true, d: false, m: false }));
            assert(spec_parse_dest_from(dc, 0, Dest { a: false, d: false, m: false }) == spec_parse_dest_from(dc, 1, Dest { a: true, d: false, m: false }));
        }
        if !dest.a && dest.d && dest.m {
            assert(dc =~= seq!['D', 'M']);
            assert(spec_parse_dest_from(dc, 2, Dest { a: false, d: true, m: true }) == Ok::<Dest, char>(Dest { a: false, d: true, m: true }));
            assert(spec_parse_dest_from(dc, 1, Dest { a: false, d: true, m: false }) == spec_parse_dest_from(dc, 2, Dest { a: false, d: true, m: true }));
            assert(spec_parse_dest_from(dc, 0, Dest { a: false, d: false, m: false }) == spec_parse_dest_from(dc, 1, Dest { a: false, d: true, m: false }));
        }
        if !dest.a && dest.d && !dest.m {
            assert(dc =~= seq!['D']);
            assert(spec_parse_dest_from(dc, 1, Dest { a: false, d: true, m: false }) == Ok::<Dest, char>(Dest { a: false, d: true, m: false }));
            assert(spec_parse_dest_from(dc, 0, Dest { a: false, d: false, m: false }) == spec_parse_dest_from(dc, 1, Dest { a: false, d: true, m: false }));
        }
        if !dest.a && !dest.d && dest.m {
            assert(dc =~= seq!['M']);
            assert(spec_parse_dest_from(dc, 1, Dest { a: false, d: false, m: true }) == Ok::<Dest, char>(Dest { a: false, d: false, m: true }));
            assert(spec_parse_dest_from(dc, 0, Dest { a: false, d: false, m: false }) == spec_parse_dest_from(dc, 1, Dest { a: false, d: false, m: true }));
        }
        if !dest.a && !dest.d && !dest.m {
            assert(dc =~= Seq::<char>::empty());
            assert(spec_parse_dest_from(dc, 0, Dest { a: false, d: false, m: false }) == Ok::<Dest, char>(Dest { a: false, d: false, m: false }));
        }
}


/// The canonical computation mnemonic is one to three characters, none of
/// them a comment, split or whitespace character, and looks up in the
/// table as the operation it names.
proof fn lemma_comp_chars_facts(comp: Comp, should_deref: bool)
    requires
        should_deref ==> (comp is A || comp is NotA || comp is MinusA || comp is APlus1 || comp
            is AMinus1 || comp is DPlusA || comp is DMinusA || comp is AMinusD || comp is DAndA
            || comp is DOrA),
    ensures
        ({
            let cs = spec_comp_chars(comp, should_deref);
            &&& 1 <= cs.len() <= 3
            &&& forall|k: int|
                0 <= k < cs.len() ==> (#[trigger] cs[k] != '/' && cs[k] != '=' && cs[k] != ';'
                    && !is_space(cs[k]))
            &&& cs[0] != '@'
            &&& cs[0] != '('
            &&& spec_comp_table(cs) == Some((comp, should_deref))
        }),
{
}

/// The canonical jump mnemonic is three plain characters and looks up in
/// the table as the condition it names; the absent jump has no text.
proof fn lemma_jump_chars_facts(j: Jump)
    ensures
        ({
            let js = spec_jump_chars(j);
            &&& (j is Null ==> js.len() == 0)
            &&& (!(j is Null) ==> js.len() == 3 && spec_jump_table(js) == Some(j))
            &&& forall|k: int|
                0 <= k < js.len() ==> (#[trigger] js[k] != '/' && js[k] != '=' && js[k] != ';'
                    && !is_space(js[k]))
        }),
{
}

/// Law: parsing the canonical text of an instruction gives that
/// instruction's parsed form back, with no comment.
#[verifier::rlimit(100)]
#[verifier::spinoff_prover]
pub proof fn lemma_disassemble_parses(i: Instruction)
    requires
        spec_expressible(i),
    ensures
        spec_parse_line(spec_disassemble(i)) == Ok::<AsmLineView, ParseErrorView>(
            AsmLineView { instruction: spec_asm_of(i), comment: None },
        ),
{
    let s = spec_disassemble(i);
    match i {
        Instruction::A(n) => {
            lemma_dec_string(n);
            let ds = spec_dec_string(n);
            assert(s == seq!['@'] + ds);
            assert(s[0] == '@');
            assert forall|k: int| 0 <= k < s.len() implies s[k] != '/' by {
                if k >= 1 {
                    assert(s[k] == ds[k - 1]);
                    assert(is_digit(ds[k - 1]));
                }
            }
            lemma_comment_none(s, 0);
            assert(is_digit(ds[ds.len() - 1]));
            assert(s[s.len() - 1] == ds[ds.len() - 1]);
            assert(!is_space(s[0]) && !is_space(s[s.len() - 1]));
            lemma_trim_id(s);
            let addr = s.subrange(1, s.len() as int);
            assert(addr =~= ds);
            assert(!is_space(addr[0]) && !is_space(addr[addr.len() - 1]));
            lemma_trim_id(addr);
            lemma_parse_dec_string(n);
        },
        Instruction::C { comp, should_deref, dest, jump } => {
            lemma_dest_chars(dest);
            lemma_comp_chars_facts(comp, should_deref);
            lemma_jump_chars_facts(jump);
            let dc = spec_dest_chars(dest);
            let cs = spec_comp_chars(comp, should_deref);
            let js = spec_jump_chars(jump);
            let has_dest = dest.a || dest.d || dest.m;
            let has_jump = !(jump is Null);
            let dpart = if has_dest {
                dc + seq!['=']
            } else {
                Seq::<char>::empty()
            };
            let jpart = if has_jump {
                seq![';'] + js
            } else {
                Seq::<char>::empty()
            };
            assert(s == dpart + cs + jpart);
            let dlen = dpart.len() as int;
            let clen = cs.len() as int;
            assert forall|k: int| 0 <= k < s.len() implies (#[trigger] s[k] != '/' && !is_space(
                s[k],
            ) && (k < dlen - 1 ==> s[k] == dc[k]) && (has_dest && k == dlen - 1 ==> s[k] == '=') && (
            dlen <= k < dlen + clen ==> s[k] == cs[k - dlen]) && (has_jump && k == dlen + clen
                ==> s[k] == ';') && (k > dlen + clen ==> s[k] == js[k - dlen - clen - 1])) by {
                if k < dlen - 1 {
                    assert(s[k] == dc[k]);
                    assert(dc[k] == 'A' || dc[k] == 'D' || dc[k] == 'M');
                } else if k < dlen {
                    assert(s[k] == '=');
                } else if k < dlen + clen {
                    assert(s[k] == cs[k - dlen]);
                } else if k == dlen + clen {
                    assert(has_jump);
                    assert(s[k] == ';');
                } else {
                    assert(s[k] == js[k - dlen - clen - 1]);
                }
            }
            lemma_comment_none(s, 0);
            lemma_trim_id(s);
            assert(s[0] != '@' && s[0] != '(') by {
                if has_dest {
                    assert(s[0] == dc[0]);
                    assert(dc[0] == 'A' || dc[0] == 'D' || dc[0] == 'M');
                } else {
                    assert(s[0] == cs[0]);
                }
            }
            if has_dest {
                assert(s[dc.len() as int] == '=');
                assert forall|k: int| 0 <= k < dc.len() implies s[k] != '=' by {
                    assert(s[k] == dc[k]);
                    assert(dc[k] == 'A' || dc[k] == 'D' || dc[k] == 'M');
                }
                lemma_find_at(s, '=', 0, dc.len() as int);
            } else {
                assert forall|k: int| 0 <= k < s.len() implies s[k] != '=' by {
                    if k < clen {
                        assert(s[k] == cs[k]);
                    } else if k == clen {
                        assert(has_jump);
                        assert(s[k] == ';');
                    } else {
                        assert(s[k] == js[k - clen - 1]);
                    }
                }
                lemma_find_none(s, '=', 0);
            }
            if has_jump {
                assert(s[dlen + clen] == ';');
                assert forall|k: int| 0 <= k < dlen + clen implies s[k] != ';' by {
                    if k < dlen - 1 {
                        assert(s[k] == dc[k]);
                        assert(dc[k] == 'A' || dc[k] == 'D' || dc[k] == 'M');
                    } else if k < dlen {
                        assert(s[k] == '=');
                    } else {
                        assert(s[k] == cs[k - dlen]);
                    }
                }
                lemma_find_at(s, ';', 0, dlen + clen);
            } else {
                assert forall|k: int| 0 <= k < s.len() implies s[k] != ';' by {
                    if k < dlen - 1 {
                        assert(s[k] == dc[k]);
                        assert(dc[k] == 'A' || dc[k] == 'D' || dc[k] == 'M');
                    } else if k < dlen {
                        assert(s[k] == '=');
                    } else {
                        assert(s[k] == cs[k - dlen]);
                    }
                }
                lemma_find_none(s, ';', 0);
            }
            if has_dest {
                assert(s.subrange(0, dc.len() as int) =~= dc);
            }
            assert(s.subrange(dlen, dlen + clen) =~= cs);
            if has_jump {
                assert(s.subrange(dlen + clen + 1, s.len() as int) =~= js);
            }
            if !has_dest {
                assert(dest == (Dest { a: false, d: false, m: false }));
                assert(spec_parse_dest_from(Seq::empty(), 0, Dest { a: false, d: false, m: false })
                    == Ok::<Dest, char>(dest));
            }
        },
    }
}


/// A word whose disassembly re-assembles exactly: it decodes, its
/// C-prefix bits are canonical, and its decoded form has a canonical
/// text.
pub open spec fn spec_word_disassemblable(w: HackWord) -> bool {
    &&& (w.spec_u16() & 0x8000 != 0 ==> w.spec_u16() & 0xE000 == 0xE000)
    &&& Instruction::spec_decode(w) is Ok
    &&& spec_expressible(Instruction::spec_decode(w)->Ok_0)
}

/// The disassembly of a program: one canonical source line per word.
pub open spec fn spec_disassembly(words: Seq<HackWord>) -> Seq<Seq<char>> {
    Seq::new(
        words.len(),
        |k: int| spec_disassemble(Instruction::spec_decode(words[k])->Ok_0),
    )
}

/// The parsed form of each disassembled line.
spec fn spec_parsed_of(words: Seq<HackWord>) -> Seq<AsmLineView> {
    Seq::new(
        words.len(),
        |k: int|
            AsmLineView {
                instruction: spec_asm_of(Instruction::spec_decode(words[k])->Ok_0),
                comment: None,
            },
    )
}

/// Every disassembled line parses, to the decoded instruction's form.
proof fn lemma_parse_all_disassembly(words: Seq<HackWord>)
    requires
        forall|k: int| 0 <= k < words.len() ==> spec_word_disassemblable(#[trigger] words[k]),
    ensures
        spec_parse_all(spec_disassembly(words)) == Ok::<Seq<AsmLineView>, (int, ParseErrorView)>(
            spec_parsed_of(words),
        ),
    decreases words.len(),
{
    if words.len() == 0 {
        assert(spec_disassembly(words).len() == 0);
        assert(spec_parsed_of(words) =~= Seq::<AsmLineView>::empty());
    } else {
        assert(forall|k: int|
            0 <= k < words.drop_last().len() ==> #[trigger] words.drop_last()[k] == words[k]);
        lemma_parse_all_disassembly(words.drop_last());
        assert(spec_disassembly(words).drop_last() =~= spec_disassembly(words.drop_last()));
        let w = words[words.len() - 1];
        let i = Instruction::spec_decode(w)->Ok_0;
        lemma_disassemble_parses(i);
        assert(spec_disassembly(words).last() == spec_disassemble(i));
        assert(spec_parsed_of(words) =~= spec_parsed_of(words.drop_last()).push(
            AsmLineView { instruction: spec_asm_of(i), comment: None },
        ));
    }
}

/// A program without labels binds none.
proof fn lemma_labels_none(p: Seq<AsmLineView>, base: Map<Seq<char>, u16>)
    requires
        forall|k: int| 0 <= k < p.len() ==> !((#[trigger] p[k]).instruction is Label),
    ensures
        spec_labels(p, base) == base,
    decreases p.len(),
{
    if p.len() > 0 {
        assert(forall|k: int| 0 <= k < p.drop_last().len() ==> #[trigger] p.drop_last()[k] == p[k]);
        lemma_labels_none(p.drop_last(), base);
    }
}

/// Pass two over the parsed forms of decoded canonical words emits those
/// words back, and binds nothing new.
proof fn lemma_pass2_of_decoded(
    p: Seq<AsmLineView>,
    lv: Seq<Seq<char>>,
    st: Pass2,
    ws: Seq<HackWord>,
)
    requires
        p.len() == ws.len(),
        forall|k: int| 0 <= k < ws.len() ==> spec_word_disassemblable(#[trigger] ws[k]),
        forall|k: int|
            0 <= k < p.len() ==> (#[trigger] p[k]).instruction == spec_asm_of(
                Instruction::spec_decode(ws[k])->Ok_0,
            ),
    ensures
        spec_pass2(p, lv, st).words =~= st.words + ws,
        spec_pass2(p, lv, st).symbols == st.symbols,
        spec_pass2(p, lv, st).ram == st.ram,
    decreases p.len(),
{
    if p.len() == 0 {
        assert(st.words + ws =~= st.words);
    } else {
        assert(forall|k: int|
            0 <= k < p.drop_last().len() ==> #[trigger] p.drop_last()[k] == p[k]);
        assert(forall|k: int|
            0 <= k < ws.drop_last().len() ==> #[trigger] ws.drop_last()[k] == ws[k]);
        lemma_pass2_of_decoded(p.drop_last(), lv, st, ws.drop_last());
        let w = ws[ws.len() - 1];
        crate::instruction::lemma_encode_decode(w);
        assert((st.words + ws.drop_last()).push(w) =~= st.words + ws);
    }
}

/// Law: re-assembling the disassembly of a program yields the same word
/// sequence, for every program of words that decode, whose C-prefix bits
/// are canonical, and whose memory-operand bit appears only on operations
/// with an `A` operand.
pub proof fn lemma_reassemble_disassembly(words: Seq<HackWord>)
    requires
        forall|k: int| 0 <= k < words.len() ==> spec_word_disassemblable(#[trigger] words[k]),
    ensures
        ({
            let lines = spec_disassembly(words);
            &&& spec_parse_all(lines) is Ok
            &&& spec_compile(spec_parse_all(lines)->Ok_0, lines).words == words
        }),
{
    lemma_parse_all_disassembly(words);
    let p = spec_parsed_of(words);
    assert(forall|k: int| 0 <= k < p.len() ==> !((#[trigger] p[k]).instruction is Label));
    lemma_labels_none(p, spec_predefined());
    lemma_pass2_of_decoded(p, spec_disassembly(words), spec_initial(p), words);
    assert(Seq::<HackWord>::empty() + words =~= words);
}

} // verus!
