//! The instruction codec: the bidirectional mapping between a 16-bit word
//! and a structured instruction.
//!
//! An A-instruction has the top bit clear and loads its low 15 bits into
//! register A. A C-instruction has bits 15..13 set to `111`; bit 12 selects
//! the memory operand, bits 11..6 hold the computation code, bits 5..3 the
//! destination flags (A, D, M), and bits 2..0 the jump code.

use vstd::prelude::*;
use crate::errors::DecodeError;
use crate::hackword::HackWord;

verus! {

/// One of the eighteen ALU operations, keyed by a 6-bit control field.
/// The `M`-forms of the assembly language reuse the corresponding `A`-form
/// code together with the memory-operand bit; there are no separate codes.
#[derive(Clone, Copy, PartialEq, Eq, Structural, Debug)]
pub enum Comp {
    Zero,
    One,
    MinusOne,
    D,
    A,
    NotD,
    NotA,
    MinusD,
    MinusA,
    DPlus1,
    APlus1,
    DMinus1,
    AMinus1,
    DPlusA,
    DMinusA,
    AMinusD,
    DAndA,
    DOrA,
}

/// The destination flags of a C-instruction; any subset is legal.
#[derive(Clone, Copy, PartialEq, Eq, Structural, Debug, Default)]
pub struct Dest {
    pub a: bool,
    pub d: bool,
    pub m: bool,
}

/// The jump condition of a C-instruction, applied to the computed value.
#[derive(Clone, Copy, PartialEq, Eq, Structural, Debug, Default)]
pub enum Jump {
    #[default]
    Null,
    JGT,
    JEQ,
    JGE,
    JLT,
    JNE,
    JLE,
    JMP,
}

impl Jump {
    /// The signed comparison table: whether a jump with this condition is
    /// taken for the given computed value.
    pub open spec fn spec_should_jump(self, value: HackWord) -> bool {
        match self {
            Jump::Null => false,
            Jump::JGT => value.0 > 0,
            Jump::JEQ => value.0 == 0,
            Jump::JGE => value.0 >= 0,
            Jump::JLT => value.0 < 0,
            Jump::JNE => value.0 != 0,
            Jump::JLE => value.0 <= 0,
            Jump::JMP => true,
        }
    }

    /// Whether a jump with this condition is taken for `value`, read as a
    /// signed 16-bit integer.
    pub fn should_jump(&self, value: HackWord) -> (r: bool)
        ensures
            r == self.spec_should_jump(value),
    {
        match self {
            Jump::Null => false,
            Jump::JGT => value.0 > 0,
            Jump::JEQ => value.0 == 0,
            Jump::JGE => value.0 >= 0,
            Jump::JLT => value.0 < 0,
            Jump::JNE => value.0 != 0,
            Jump::JLE => value.0 <= 0,
            Jump::JMP => true,
        }
    }
}

/// The 6-bit control code of each computation.
pub open spec fn comp_code(c: Comp) -> u16 {
    match c {
        Comp::Zero => 0b101010,
        Comp::One => 0b111111,
        Comp::MinusOne => 0b111010,
        Comp::D => 0b001100,
        Comp::A => 0b110000,
        Comp::NotD => 0b001101,
        Comp::NotA => 0b110001,
        Comp::MinusD => 0b001111,
        Comp::MinusA => 0b110011,
        Comp::DPlus1 => 0b011111,
        Comp::APlus1 => 0b110111,
        Comp::DMinus1 => 0b001110,
        Comp::AMinus1 => 0b110010,
        Comp::DPlusA => 0b000010,
        Comp::DMinusA => 0b010011,
        Comp::AMinusD => 0b000111,
        Comp::DAndA => 0b000000,
        Comp::DOrA => 0b010101,
    }
}

/// The computation a 6-bit control code names, if any.
pub open spec fn comp_from_code(code: u16) -> Option<Comp> {
    if code == 0b101010 {
        Some(Comp::Zero)
    } else if code == 0b111111 {
        Some(Comp::One)
    } else if code == 0b111010 {
        Some(Comp::MinusOne)
    } else if code == 0b001100 {
        Some(Comp::D)
    } else if code == 0b110000 {
        Some(Comp::A)
    } else if code == 0b001101 {
        Some(Comp::NotD)
    } else if code == 0b110001 {
        Some(Comp::NotA)
    } else if code == 0b001111 {
        Some(Comp::MinusD)
    } else if code == 0b110011 {
        Some(Comp::MinusA)
    } else if code == 0b011111 {
        Some(Comp::DPlus1)
    } else if code == 0b110111 {
        Some(Comp::APlus1)
    } else if code == 0b001110 {
        Some(Comp::DMinus1)
    } else if code == 0b110010 {
        Some(Comp::AMinus1)
    } else if code == 0b000010 {
        Some(Comp::DPlusA)
    } else if code == 0b010011 {
        Some(Comp::DMinusA)
    } else if code == 0b000111 {
        Some(Comp::AMinusD)
    } else if code == 0b000000 {
        Some(Comp::DAndA)
    } else if code == 0b010101 {
        Some(Comp::DOrA)
    } else {
        None
    }
}

/// The 3-bit code of each jump condition.
pub open spec fn jump_code(j: Jump) -> u16 {
    match j {
        Jump::Null => 0b000,
        Jump::JGT => 0b001,
        Jump::JEQ => 0b010,
        Jump::JGE => 0b011,
        Jump::JLT => 0b100,
        Jump::JNE => 0b101,
        Jump::JLE => 0b110,
        Jump::JMP => 0b111,
    }
}

/// The jump condition of a 3-bit code (every value below 8 names one).
pub open spec fn jump_from_code(code: u16) -> Jump {
    if code == 0b000 {
        Jump::Null
    } else if code == 0b001 {
        Jump::JGT
    } else if code == 0b010 {
        Jump::JEQ
    } else if code == 0b011 {
        Jump::JGE
    } else if code == 0b100 {
        Jump::JLT
    } else if code == 0b101 {
        Jump::JNE
    } else if code == 0b110 {
        Jump::JLE
    } else {
        Jump::JMP
    }
}

/// A machine instruction: an address load or a computation.
#[derive(Clone, Copy, PartialEq, Eq, Structural, Debug)]
pub enum Instruction {
    A(u16),
    C { comp: Comp, should_deref: bool, dest: Dest, jump: Jump },
}

impl Instruction {
    /// Structural validity: an A-instruction's constant fits in 15 bits.
    pub open spec fn spec_valid(self) -> bool {
        match self {
            Instruction::A(n) => n <= 32767,
            Instruction::C { .. } => true,
        }
    }

    /// The bit pattern an instruction encodes to.
    pub open spec fn spec_encode_u16(self) -> u16 {
        match self {
            Instruction::A(n) => n,
            Instruction::C { comp, should_deref, dest, jump } => 0xE000u16 | (if should_deref {
                0x1000u16
            } else {
                0u16
            }) | (comp_code(comp) << 6u16) | (if dest.a {
                0x20u16
            } else {
                0u16
            }) | (if dest.d {
                0x10u16
            } else {
                0u16
            }) | (if dest.m {
                0x8u16
            } else {
                0u16
            }) | jump_code(jump),
        }
    }

    /// The word an instruction encodes to.
    pub open spec fn spec_encode(self) -> HackWord {
        HackWord(self.spec_encode_u16() as i16)
    }

    /// What a word decodes to: an A-instruction when the top bit is clear,
    /// otherwise a C-instruction read field by field; a computation code
    /// outside the table is an error carrying the word's bits.
    pub open spec fn spec_decode(w: HackWord) -> Result<Instruction, DecodeError> {
        let u = w.spec_u16();
        if u & 0x8000 == 0 {
            Ok(Instruction::A(u))
        } else {
            match comp_from_code((u >> 6u16) & 0x3F) {
                Some(comp) => Ok(
                    Instruction::C {
                        comp,
                        should_deref: (u >> 12u16) & 1 == 1,
                        dest: Dest {
                            a: (u >> 5u16) & 1 == 1,
                            d: (u >> 4u16) & 1 == 1,
                            m: (u >> 3u16) & 1 == 1,
                        },
                        jump: jump_from_code(u & 7),
                    },
                ),
                None => Err(DecodeError::UnknownOp(u)),
            }
        }
    }

    /// Encodes the instruction into its machine word.
    pub fn encode(self) -> (r: HackWord)
        ensures
            r == self.spec_encode(),
    {
        match self {
            Instruction::A(n) => HackWord(n as i16),
            Instruction::C { comp, should_deref, dest, jump } => {
                let word: u16 = 0xE000u16 | (if should_deref {
                    0x1000u16
                } else {
                    0u16
                }) | (comp_code_of(comp) << 6u16) | (if dest.a {
                    0x20u16
                } else {
                    0u16
                }) | (if dest.d {
                    0x10u16
                } else {
                    0u16
                }) | (if dest.m {
                    0x8u16
                } else {
                    0u16
                }) | jump_code_of(jump);
                HackWord(word as i16)
            },
        }
    }

    /// Decodes a machine word, failing on a computation code outside the
    /// fixed table.
    pub fn decode(w: HackWord) -> (r: Result<Instruction, DecodeError>)
        ensures
            r == Instruction::spec_decode(w),
    {
        let u: u16 = w.0 as u16;
        if u & 0x8000 == 0 {
            Ok(Instruction::A(u))
        } else {
            match comp_of_code((u >> 6u16) & 0x3F) {
                Some(comp) => {
                    let should_deref = ((u >> 12u16) & 1) == 1;
                    let dest = Dest {
                        a: ((u >> 5u16) & 1) == 1,
                        d: ((u >> 4u16) & 1) == 1,
                        m: ((u >> 3u16) & 1) == 1,
                    };
                    let jump = jump_of_code(u & 7);
                    Ok(Instruction::C { comp, should_deref, dest, jump })
                },
                None => Err(DecodeError::UnknownOp(u)),
            }
        }
    }
}

/// The 6-bit control code of a computation.
pub fn comp_code_of(c: Comp) -> (r: u16)
    ensures
        r == comp_code(c),
{
    match c {
        Comp::Zero => 0b101010,
        Comp::One => 0b111111,
        Comp::MinusOne => 0b111010,
        Comp::D => 0b001100,
        Comp::A => 0b110000,
        Comp::NotD => 0b001101,
        Comp::NotA => 0b110001,
        Comp::MinusD => 0b001111,
        Comp::MinusA => 0b110011,
        Comp::DPlus1 => 0b011111,
        Comp::APlus1 => 0b110111,
        Comp::DMinus1 => 0b001110,
        Comp::AMinus1 => 0b110010,
        Comp::DPlusA => 0b000010,
        Comp::DMinusA => 0b010011,
        Comp::AMinusD => 0b000111,
        Comp::DAndA => 0b000000,
        Comp::DOrA => 0b010101,
    }
}

/// The computation named by a 6-bit control code, if any.
pub fn comp_of_code(code: u16) -> (r: Option<Comp>)
    ensures
        r == comp_from_code(code),
{
    if code == 0b101010 {
        Some(Comp::Zero)
    } else if code == 0b111111 {
        Some(Comp::One)
    } else if code == 0b111010 {
        Some(Comp::MinusOne)
    } else if code == 0b001100 {
        Some(Comp::D)
    } else if code == 0b110000 {
        Some(Comp::A)
    } else if code == 0b001101 {
        Some(Comp::NotD)
    } else if code == 0b110001 {
        Some(Comp::NotA)
    } else if code == 0b001111 {
        Some(Comp::MinusD)
    } else if code == 0b110011 {
        Some(Comp::MinusA)
    } else if code == 0b011111 {
        Some(Comp::DPlus1)
    } else if code == 0b110111 {
        Some(Comp::APlus1)
    } else if code == 0b001110 {
        Some(Comp::DMinus1)
    } else if code == 0b110010 {
        Some(Comp::AMinus1)
    } else if code == 0b000010 {
        Some(Comp::DPlusA)
    } else if code == 0b010011 {
        Some(Comp::DMinusA)
    } else if code == 0b000111 {
        Some(Comp::AMinusD)
    } else if code == 0b000000 {
        Some(Comp::DAndA)
    } else if code == 0b010101 {
        Some(Comp::DOrA)
    } else {
        None
    }
}

/// The 3-bit code of a jump condition.
pub fn jump_code_of(j: Jump) -> (r: u16)
    ensures
        r == jump_code(j),
{
    match j {
        Jump::Null => 0b000,
        Jump::JGT => 0b001,
        Jump::JEQ => 0b010,
        Jump::JGE => 0b011,
        Jump::JLT => 0b100,
        Jump::JNE => 0b101,
        Jump::JLE => 0b110,
        Jump::JMP => 0b111,
    }
}

/// The jump condition of a 3-bit code.
pub fn jump_of_code(code: u16) -> (r: Jump)
    ensures
        r == jump_from_code(code),
{
    if code == 0b000 {
        Jump::Null
    } else if code == 0b001 {
        Jump::JGT
    } else if code == 0b010 {
        Jump::JEQ
    } else if code == 0b011 {
        Jump::JGE
    } else if code == 0b100 {
        Jump::JLT
    } else if code == 0b101 {
        Jump::JNE
    } else if code == 0b110 {
        Jump::JLE
    } else {
        Jump::JMP
    }
}

/// Law: decoding an encoded instruction gives the instruction back, for
/// every structurally valid instruction.
pub proof fn lemma_decode_encode(i: Instruction)
    requires
        i.spec_valid(),
    ensures
        Instruction::spec_decode(i.spec_encode()) == Ok::<Instruction, DecodeError>(i),
{
    match i {
        Instruction::A(n) => {
            assert(((n as i16) as u16) == n && n & 0x8000 == 0) by (bit_vector)
                requires
                    n <= 32767,
            ;
        },
        Instruction::C { comp, should_deref, dest, jump } => {
            let c = comp_code(comp);
            let j = jump_code(jump);
            let dr: u16 = if should_deref {
                0x1000
            } else {
                0
            };
            let ab: u16 = if dest.a {
                0x20
            } else {
                0
            };
            let db: u16 = if dest.d {
                0x10
            } else {
                0
            };
            let mb: u16 = if dest.m {
                0x8
            } else {
                0
            };
            let w: u16 = 0xE000u16 | dr | (c << 6u16) | ab | db | mb | j;
            assert(c <= 63);
            assert(j <= 7);
            assert(((w as i16) as u16) == w && w & 0x8000 != 0 && ((w >> 12u16) & 1 == 1 <==> dr
                == 0x1000) && (w >> 6u16) & 0x3F == c && ((w >> 5u16) & 1 == 1 <==> ab == 0x20) && (
            (w >> 4u16) & 1 == 1 <==> db == 0x10) && ((w >> 3u16) & 1 == 1 <==> mb == 0x8) && w & 7
                == j) by (bit_vector)
                requires
                    c <= 63,
                    j <= 7,
                    dr == 0x1000 || dr == 0,
                    ab == 0x20 || ab == 0,
                    db == 0x10 || db == 0,
                    mb == 0x8 || mb == 0,
                    w == 0xE000u16 | dr | (c << 6u16) | ab | db | mb | j,
            ;
            assert(comp_from_code(c) == Some(comp));
            assert(jump_from_code(j) == jump);
        },
    }
}

/// Law: every word whose computation code decodes, and whose C-prefix bits
/// are in canonical form, encodes back to itself. A word with the top bit
/// set but bits 14 or 13 clear decodes (the decoder ignores those bits) yet
/// re-encodes with them set, so such words are excluded.
pub proof fn lemma_encode_decode(w: HackWord)
    requires
        w.spec_u16() & 0x8000 != 0 ==> w.spec_u16() & 0xE000 == 0xE000,
        Instruction::spec_decode(w) is Ok,
    ensures
        Instruction::spec_decode(w) matches Ok(i) ==> i.spec_encode() == w && i.spec_valid(),
{
    let u = w.spec_u16();
    if u & 0x8000 == 0 {
        assert(u <= 32767 && (u as i16) as u16 == u) by (bit_vector)
            requires
                u & 0x8000 == 0,
        ;
        let x: i16 = w.0;
        assert((x as u16) as i16 == x) by (bit_vector);
    } else {
        let i = Instruction::spec_decode(w)->Ok_0;
        let c = (u >> 6u16) & 0x3F;
        let comp = comp_from_code(c)->Some_0;
        assert(comp_code(comp) == c);
        let j = u & 7;
        assert(u & 7 <= 7) by (bit_vector);
        assert(jump_code(jump_from_code(j)) == j);
        let dr: u16 = if (u >> 12u16) & 1 == 1 {
            0x1000
        } else {
            0
        };
        let ab: u16 = if (u >> 5u16) & 1 == 1 {
            0x20
        } else {
            0
        };
        let db: u16 = if (u >> 4u16) & 1 == 1 {
            0x10
        } else {
            0
        };
        let mb: u16 = if (u >> 3u16) & 1 == 1 {
            0x8
        } else {
            0
        };
        assert(0xE000u16 | dr | (c << 6u16) | ab | db | mb | j == u) by (bit_vector)
            requires
                u & 0xE000 == 0xE000,
                c == (u >> 6u16) & 0x3F,
                j == u & 7,
                ((u >> 12u16) & 1 == 1 ==> dr == 0x1000) && ((u >> 12u16) & 1 != 1 ==> dr == 0),
                ((u >> 5u16) & 1 == 1 ==> ab == 0x20) && ((u >> 5u16) & 1 != 1 ==> ab == 0),
                ((u >> 4u16) & 1 == 1 ==> db == 0x10) && ((u >> 4u16) & 1 != 1 ==> db == 0),
                ((u >> 3u16) & 1 == 1 ==> mb == 0x8) && ((u >> 3u16) & 1 != 1 ==> mb == 0),
        ;
        let x: i16 = w.0;
        assert((x as u16) as i16 == x) by (bit_vector);
        assert(i.spec_encode_u16() == u);
    }
}

} // verus!
