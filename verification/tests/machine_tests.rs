use hack::assembler::compile_lines;
use hack::errors::{DecodeError, ParseError};
use hack::hackword::HackWord;
use hack::io::{read_instructions, write_to_screen};
use hack::machine::{run_asm, Machine};

const MULT_ASM: &str = "// Multiplies R0 by R1, leaving the product in R2.\n@R2\nM=0\n@R0\nD=M\n@n\nM=D\n(LOOP)\n@n\nD=M\n@END\nD;JLE\n@R1\nD=M\n@R2\nM=D+M\n@n\nM=M-1\n@LOOP\n0;JMP\n(END)\n";

fn words_of(lines: &[&str]) -> Vec<HackWord> {
    let owned: Vec<String> = lines.iter().map(|s| s.to_string()).collect();
    read_instructions(&owned).unwrap()
}

const ADD_HACK: &[&str] = &[
    "0000000000000010",
    "1110110000010000",
    "0000000000000011",
    "1110000010010000",
    "0000000000000000",
    "1110001100001000",
];

const MAX_HACK: &[&str] = &[
    "0000000000000000",
    "1111110000010000",
    "0000000000000001",
    "1111010011010000",
    "0000000000001010",
    "1110001100000001",
    "0000000000000001",
    "1111110000010000",
    "0000000000001100",
    "1110101010000111",
    "0000000000000000",
    "1111110000010000",
    "0000000000000010",
    "1110001100001000",
];

#[test]
fn add() {
    let instructions = words_of(ADD_HACK);
    let mut machine = Machine::from_instructions(instructions);

    assert!(machine.run(1000).unwrap());

    assert_eq!(machine.memory[0], HackWord(5))
}

#[test]
fn max() {
    let instructions = words_of(MAX_HACK);
    let mut machine = Machine::from_instructions(instructions);
    machine.memory[0] = HackWord(5);
    machine.memory[1] = HackWord(4);

    assert!(machine.run(1000).unwrap());

    assert_eq!(machine.memory[2], HackWord(5))
}

#[test]
fn max_with_swapped_inputs() {
    let instructions = words_of(MAX_HACK);
    let mut machine = Machine::from_instructions(instructions);
    machine.memory[0] = HackWord(4);
    machine.memory[1] = HackWord(5);

    assert!(machine.run(1000).unwrap());

    assert_eq!(machine.memory[2], HackWord(5))
}

#[test]
fn main_test_mult() {
    for (a, b) in [(1, 1), (1, 2), (2, 1), (2, 2), (0, 2), (2, 0)] {
        let mut machine = Machine::new();
        machine.memory[0] = HackWord(a);
        machine.memory[1] = HackWord(b);

        let instructions = compile_lines(MULT_ASM).unwrap();
        machine.load_instructions(instructions);

        assert!(machine.run(1_000_000).unwrap());

        assert_eq!(machine.memory[2], HackWord(a * b))
    }
}

#[test]
fn add_program_from_source() {
    let mut machine = Machine::new();
    assert!(run_asm("@2\nD=A\n@3\nD=D+A\n@0\nM=D", &mut machine, 1000).unwrap());
    assert_eq!(machine.memory[0], HackWord(5));
    assert_eq!(machine.a(), HackWord(0));
    assert_eq!(machine.d(), HackWord(5));
    assert_eq!(machine.pc().to_usize(), 6);
}

#[test]
fn memory_write_keeps_a() {
    let mut machine = Machine::new();
    machine.memory[0x4000] = HackWord(41);
    assert!(run_asm("@16384\nM=M+1", &mut machine, 100).unwrap());
    assert_eq!(machine.memory[0x4000], HackWord(42));
    assert_eq!(machine.a(), HackWord(16384));
}

#[test]
fn a_and_memory_writeback_order() {
    let mut machine = Machine::new();
    assert!(run_asm("@7\nD=A\n@100\nAM=D+1", &mut machine, 100).unwrap());
    assert_eq!(machine.a(), HackWord(8));
    assert_eq!(machine.memory[8], HackWord(8));
    assert_eq!(machine.memory[100], HackWord(0));
}

#[test]
fn unconditional_jump_on_zero() {
    let mut machine = Machine::new();
    assert!(run_asm("@3\n0;JMP\n@21", &mut machine, 100).unwrap());
    assert_eq!(machine.a(), HackWord(3));
    assert_eq!(machine.pc(), HackWord(3));
}

#[test]
fn pc_at_program_end_halts() {
    let mut machine = Machine::from_instructions(vec![HackWord(5)]);
    assert!(machine.step().unwrap());
    assert!(!machine.step().unwrap());
    assert!(!machine.step().unwrap());
    assert_eq!(machine.pc().to_usize(), 1);
    assert_eq!(machine.a(), HackWord(5));
}

#[test]
fn bare_computation_changes_only_pc() {
    let mut machine = Machine::new();
    assert!(run_asm("@6\nD=A\nD+A", &mut machine, 100).unwrap());
    assert_eq!(machine.a(), HackWord(6));
    assert_eq!(machine.d(), HackWord(6));
    assert_eq!(machine.pc().to_usize(), 3);
    assert_eq!(machine.memory[6], HackWord(0));
    assert_eq!(machine.memory[0], HackWord(0));
}

#[test]
fn sum_one_to_hundred() {
    let source = "@i\nM=1\n@sum\nM=0\n(LOOP)\n@i\nD=M\n@100\nD=D-A\n@END\nD;JGT\n@i\nD=M\n@sum\nM=D+M\n@i\nM=M+1\n@LOOP\n0;JMP\n(END)\n@END\n0;JMP";
    let words = compile_lines(source).unwrap();
    assert_eq!(words.len(), 20);
    assert_eq!(words[0].to_bit_string(), "0000000000010000");

    let mut machine = Machine::from_instructions(words);
    assert!(!machine.run(10_000).unwrap());
    assert_eq!(machine.memory[17], HackWord(5050));
}

#[test]
fn decode_failure_stops_the_run() {
    let mut machine = Machine::from_instructions(vec![HackWord(0xE040u16 as i16)]);
    assert_eq!(machine.run(10), Err(DecodeError::UnknownOp(0xE040)));
}

#[test]
fn read_instructions_reports_bad_line() {
    let lines = vec!["0000000000000000".to_string(), "oops".to_string()];
    let err = read_instructions(&lines).unwrap_err();
    assert_eq!(err.line, 2);
    assert_eq!(err.error, ParseError::MalformedLine);
}

#[test]
fn screen_shows_least_significant_bit_leftmost() {
    let mut machine = Machine::new();
    machine.memory[0x4000] = HackWord(1);
    machine.memory[0x4000 + 32] = HackWord(i16::MIN);
    let mut buffer = vec![0u32; 512 * 256];
    write_to_screen(&machine, &mut buffer);

    // word value 1: only the least significant bit is set, so only the
    // leftmost pixel of the first span is black
    assert_eq!(buffer[0], 0x000000);
    for i in 1..16 {
        assert_eq!(buffer[i], 0xFFFFFF);
    }

    // the sign bit is the most significant: rightmost pixel of its span
    let row1 = 512;
    for i in 0..15 {
        assert_eq!(buffer[row1 + i], 0xFFFFFF);
    }
    assert_eq!(buffer[row1 + 15], 0x000000);
}
