use hack::assembler::{compile, compile_lines, split_lines, Asm, AsmLine, MemoryLocation};
use hack::errors::ParseError;
use hack::hackword::HackWord;
use hack::instruction::{Comp, Dest, Instruction, Jump};
use hack::machine::Machine;

const MULT_ASM: &str = "// Multiplies R0 by R1, leaving the product in R2.\n@R2\nM=0\n@R0\nD=M\n@n\nM=D\n(LOOP)\n@n\nD=M\n@END\nD;JLE\n@R1\nD=M\n@R2\nM=D+M\n@n\nM=M-1\n@LOOP\n0;JMP\n(END)\n";

#[test]
fn string_to_asm() {
    for (input, expected) in [
        (
            "@ test",
            Asm::LoadAddress(MemoryLocation::Variable("test".into())),
        ),
        ("@ 98", Asm::LoadAddress(MemoryLocation::Numeric(98))),
        ("// a comment", Asm::EmptyLine),
        ("( LOOP )", Asm::Label("LOOP".into())),
        (
            "M=1",
            Asm::Compute {
                dest: Dest { a: false, d: false, m: true },
                should_deref: false,
                comp: Comp::One,
                jump: Jump::Null,
            },
        ),
        (
            "D;JGT",
            Asm::Compute {
                dest: Dest::default(),
                should_deref: false,
                comp: Comp::D,
                jump: Jump::JGT,
            },
        ),
    ] {
        let res: AsmLine = AsmLine::from_str(input).unwrap();

        assert_eq!(res.instruction, expected);
    }
}

#[test]
fn asm_test_mult() {
    for (a, b) in [(1, 1), (1, 2), (2, 1), (2, 2), (0, 2), (2, 0)] {
        let mut machine = Machine::new();
        machine.memory[0] = HackWord(a);
        machine.memory[1] = HackWord(b);

        let instructions = compile_lines(MULT_ASM).unwrap();
        machine.load_instructions(instructions);

        assert!(machine.run(1_000_000).unwrap());

        assert_eq!(machine.memory[2], HackWord(a * b))
    }
}

#[test]
fn example_compilation() {
    let source = r#"
            // Adds 1 + ... + 100
                @i
                M=1    // i=1
                @sum
                M=0    // sum=0
            (LOOP)
                @i
                D=M    // D=i
                @100
                D=D-A  // D=i-100
                @END
                D;JGT  // if (i-100)>0 goto END
                @i
                D=M    // D=i
                @sum
                M=D+M  // sum=sum+i
                @i
                M=M+1  // i=i+1
                @LOOP
                0;JMP  // goto LOOP
            (END)
                @END
                0;JMP  // infinite loop
        "#;

    let expected: Vec<HackWord> = vec![
        "0000000000010000",
        "1110111111001000",
        "0000000000010001",
        "1110101010001000",
        "0000000000010000",
        "1111110000010000",
        "0000000001100100",
        "1110010011010000",
        "0000000000010010",
        "1110001100000001",
        "0000000000010000",
        "1111110000010000",
        "0000000000010001",
        "1111000010001000",
        "0000000000010000",
        "1111110111001000",
        "0000000000000100",
        "1110101010000111",
        "0000000000010010",
        "1110101010000111",
    ]
    .iter()
    .map(|x| HackWord::from_str(x).unwrap())
    .collect();

    let res = compile_lines(source).unwrap();

    assert_eq!(res, expected);
}

#[test]
fn constant_boundaries() {
    let words = compile_lines("@32767").unwrap();
    assert_eq!(words[0].to_bit_string(), "0111111111111111");

    let err = compile_lines("@32768").unwrap_err();
    assert_eq!(err.line, 1);
    assert_eq!(err.error, ParseError::ConstantOutOfRange(32768));
}

#[test]
fn parse_error_variants() {
    assert_eq!(
        compile_lines("X=1").unwrap_err().error,
        ParseError::UnknownDestination('X')
    );
    assert_eq!(
        compile_lines("D=Q").unwrap_err().error,
        ParseError::UnknownComputation("Q".into())
    );
    assert_eq!(
        compile_lines("D;JXX").unwrap_err().error,
        ParseError::UnknownJump("JXX".into())
    );
    assert_eq!(
        compile_lines("0;JMP=D").unwrap_err().error,
        ParseError::MalformedLine
    );

    let err = compile_lines("@1\n@2\n@40000").unwrap_err();
    assert_eq!(err.line, 3);
    assert_eq!(err.error, ParseError::ConstantOutOfRange(40000));
}

#[test]
fn all_digit_constants_never_become_variables() {
    assert_eq!(
        compile_lines("@65536").unwrap_err().error,
        ParseError::ConstantOutOfRange(65536)
    );
    assert_eq!(
        compile_lines("@99999").unwrap_err().error,
        ParseError::ConstantOutOfRange(99999)
    );
    assert_eq!(
        compile_lines("@123456789012345678901234567890").unwrap_err().error,
        ParseError::ConstantOutOfRange(u32::MAX)
    );
    assert_eq!(
        compile_lines("@+99").unwrap().first().map(|w| w.0),
        Some(99)
    );
}

#[test]
fn predefined_symbols_resolve() {
    let words = compile_lines("@SP\n@R15\n@SCREEN\n@KBD\n@THAT").unwrap();
    let values: Vec<i16> = words.iter().map(|w| w.0).collect();
    assert_eq!(values, vec![0, 15, 0x4000, 0x6000, 4]);
}

#[test]
fn symbol_table_after_assembly() {
    let lines = split_lines("(LOOP)\n@x\n@LOOP\n@y");
    let (words, dbg) = compile(lines, true).unwrap();
    let dbg = dbg.unwrap();

    assert_eq!(dbg.symbols.get(&"LOOP".to_string()), Some(0));
    assert_eq!(dbg.symbols.get(&"x".to_string()), Some(16));
    assert_eq!(dbg.symbols.get(&"y".to_string()), Some(17));
    assert_eq!(words.len(), 3);
    assert_eq!(dbg.line_mappings.len(), 3);
    assert_eq!(dbg.line_mappings[0], (2, "@x".to_string()));
    assert_eq!(dbg.line_mappings[2], (4, "@y".to_string()));
}

#[test]
fn split_lines_matches_line_reading() {
    let lines = split_lines("a\nb\r\n\nc");
    assert_eq!(
        lines,
        vec![
            "a".to_string(),
            "b".to_string(),
            "".to_string(),
            "c".to_string()
        ]
    );
    assert_eq!(split_lines(""), Vec::<String>::new());
    assert_eq!(split_lines("x\n"), vec!["x".to_string()]);
}

#[test]
fn disassembly_is_canonical_text() {
    let w = HackWord::from_str("1111110111001000").unwrap();
    assert_eq!(Instruction::decode(w).unwrap().disassemble(), "M=M+1");
    let a = HackWord::from_str("0000000000010000").unwrap();
    assert_eq!(Instruction::decode(a).unwrap().disassemble(), "@16");
    let j = HackWord::from_str("1110101010000111").unwrap();
    assert_eq!(Instruction::decode(j).unwrap().disassemble(), "0;JMP");
}

#[test]
fn reassembled_disassembly_matches() {
    let words = compile_lines(MULT_ASM).unwrap();
    let text: Vec<String> = words
        .iter()
        .map(|w| Instruction::decode(*w).unwrap().disassemble())
        .collect();
    let (again, _) = compile(text, false).unwrap();
    assert_eq!(again, words);
}
