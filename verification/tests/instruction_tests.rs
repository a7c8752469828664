use hack::errors::DecodeError;
use hack::hackword::HackWord;
use hack::instruction::{Comp, Dest, Instruction, Jump};

#[test]
fn hackword_to_instruction_and_back() {
    for (input, expected) in [
        (
            i16::MIN | 0b0111_1111_1111_1111,
            Instruction::C {
                should_deref: true,
                comp: Comp::One,
                dest: Dest { a: true, d: true, m: true },
                jump: Jump::JMP,
            },
        ),
        (
            i16::MIN | 0b0110_0000_0000_0000,
            Instruction::C {
                should_deref: false,
                comp: Comp::DAndA,
                dest: Dest { a: false, d: false, m: false },
                jump: Jump::Null,
            },
        ),
        (
            i16::MIN | 0b0111_0000_0000_0000,
            Instruction::C {
                should_deref: true,
                comp: Comp::DAndA,
                dest: Dest { a: false, d: false, m: false },
                jump: Jump::Null,
            },
        ),
        (
            i16::MIN | 0b0110_1100_0100_0000,
            Instruction::C {
                should_deref: false,
                comp: Comp::NotA,
                dest: Dest { a: false, d: false, m: false },
                jump: Jump::Null,
            },
        ),
        (
            i16::MIN | 0b0110_0000_0010_0000,
            Instruction::C {
                should_deref: false,
                comp: Comp::DAndA,
                dest: Dest { a: true, d: false, m: false },
                jump: Jump::Null,
            },
        ),
        (
            i16::MIN | 0b0110_0000_0001_0000,
            Instruction::C {
                should_deref: false,
                comp: Comp::DAndA,
                dest: Dest { a: false, d: true, m: false },
                jump: Jump::Null,
            },
        ),
        (
            i16::MIN | 0b0110_0000_0000_1000,
            Instruction::C {
                should_deref: false,
                comp: Comp::DAndA,
                dest: Dest { a: false, d: false, m: true },
                jump: Jump::Null,
            },
        ),
        (
            i16::MIN | 0b0110_0000_0000_0100,
            Instruction::C {
                should_deref: false,
                comp: Comp::DAndA,
                dest: Dest { a: false, d: false, m: false },
                jump: Jump::JLT,
            },
        ),
        (
            i16::MIN | 0b0110_0000_0000_0010,
            Instruction::C {
                should_deref: false,
                comp: Comp::DAndA,
                dest: Dest { a: false, d: false, m: false },
                jump: Jump::JEQ,
            },
        ),
        (
            i16::MIN | 0b0110_0000_0000_0001,
            Instruction::C {
                should_deref: false,
                comp: Comp::DAndA,
                dest: Dest { a: false, d: false, m: false },
                jump: Jump::JGT,
            },
        ),
    ] {
        let word = HackWord(input);

        let ins: Instruction = Instruction::decode(word).expect("Expect conversion");

        assert_eq!(ins, expected);

        let back: HackWord = ins.encode();

        assert_eq!(back, word)
    }
}

#[test]
fn encoding_examples() {
    let all = Instruction::C {
        comp: Comp::One,
        should_deref: true,
        dest: Dest { a: true, d: true, m: true },
        jump: Jump::JMP,
    };
    assert_eq!(all.encode().to_bit_string(), "1111111111111111");

    let none = Instruction::C {
        comp: Comp::DAndA,
        should_deref: false,
        dest: Dest { a: false, d: false, m: false },
        jump: Jump::Null,
    };
    assert_eq!(none.encode().to_bit_string(), "1110000000000000");
}

#[test]
fn encode_then_decode_is_identity() {
    let comps = [
        Comp::Zero,
        Comp::One,
        Comp::MinusOne,
        Comp::D,
        Comp::A,
        Comp::NotD,
        Comp::NotA,
        Comp::MinusD,
        Comp::MinusA,
        Comp::DPlus1,
        Comp::APlus1,
        Comp::DMinus1,
        Comp::AMinus1,
        Comp::DPlusA,
        Comp::DMinusA,
        Comp::AMinusD,
        Comp::DAndA,
        Comp::DOrA,
    ];
    for comp in comps {
        for should_deref in [false, true] {
            for dest in [
                Dest { a: false, d: false, m: false },
                Dest { a: true, d: false, m: true },
            ] {
                for jump in [Jump::Null, Jump::JLT, Jump::JMP] {
                    let i = Instruction::C { comp, should_deref, dest, jump };
                    assert_eq!(Instruction::decode(i.encode()).unwrap(), i);
                }
            }
        }
    }
    for n in [0u16, 1, 21845, 32767] {
        let i = Instruction::A(n);
        assert_eq!(Instruction::decode(i.encode()).unwrap(), i);
    }
}

#[test]
fn unknown_op_is_rejected() {
    let w = HackWord(0xE040u16 as i16);
    assert_eq!(Instruction::decode(w), Err(DecodeError::UnknownOp(0xE040)));
}

#[test]
fn should_jump_matches_signed_comparison() {
    let cases: [(Jump, [bool; 3]); 8] = [
        (Jump::Null, [false, false, false]),
        (Jump::JGT, [false, false, true]),
        (Jump::JEQ, [false, true, false]),
        (Jump::JGE, [false, true, true]),
        (Jump::JLT, [true, false, false]),
        (Jump::JNE, [true, false, true]),
        (Jump::JLE, [true, true, false]),
        (Jump::JMP, [true, true, true]),
    ];
    let values = [HackWord(-5), HackWord(0), HackWord(7)];
    for (jump, expected) in cases {
        for (value, want) in values.iter().zip(expected) {
            assert_eq!(jump.should_jump(*value), want);
        }
    }
}
