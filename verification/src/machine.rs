//! The CPU: registers A and D, a program counter, 32,768 words of memory,
//! and the fetch-decode-execute loop.

use vstd::prelude::*;
use crate::assembler;
use crate::errors::{DecodeError, HackError};
use crate::hackword::HackWord;
use crate::instruction::{Comp, Dest, Instruction, Jump};

verus! {

pub const MEMORY_SIZE: usize = 32768;

/// The machine state: a loaded program, the program counter (held as a
/// word and read as an unsigned index), memory, and the two registers.
pub struct Machine {
    instructions: Vec<HackWord>,
    current_instruction: HackWord,
    pub memory: Vec<HackWord>,
    register_a: HackWord,
    register_d: HackWord,
}

/// The mathematical state of the machine.
#[verifier::ext_equal]
pub ghost struct MachineView {
    pub instructions: Seq<HackWord>,
    pub pc: HackWord,
    pub memory: Seq<HackWord>,
    pub a: HackWord,
    pub d: HackWord,
}

impl View for Machine {
    type V = MachineView;

    closed spec fn view(&self) -> MachineView {
        MachineView {
            instructions: self.instructions@,
            pc: self.current_instruction,
            memory: self.memory@,
            a: self.register_a,
            d: self.register_d,
        }
    }
}

impl MachineView {
    /// Well-formedness: the memory holds exactly 32,768 words.
    pub open spec fn wf(self) -> bool {
        self.memory.len() == MEMORY_SIZE
    }

    /// Register A as a memory index: its unsigned value masked into
    /// `[0, 32768)`.
    pub open spec fn a_index(self) -> int {
        (self.a.spec_u16() & 0x7FFF) as int
    }

    /// The program counter as an unsigned index into the program.
    pub open spec fn pc_index(self) -> int {
        self.pc.spec_u16() as int
    }

    /// The machine halts when the program counter is at or past the end of
    /// the program.
    pub open spec fn halted(self) -> bool {
        self.pc_index() >= self.instructions.len()
    }

    /// The ALU result of a computation: the second operand is `memory[A]`
    /// when the memory-operand bit is set, register A otherwise.
    pub open spec fn spec_alu(self, comp: Comp, should_deref: bool) -> HackWord {
        let d = self.d;
        let a = if should_deref {
            self.memory[self.a_index()]
        } else {
            self.a
        };
        match comp {
            Comp::Zero => HackWord(0),
            Comp::One => HackWord(1),
            Comp::MinusOne => HackWord(-1i16),
            Comp::D => d,
            Comp::A => a,
            Comp::NotD => HackWord::spec_not(d),
            Comp::NotA => HackWord::spec_not(a),
            Comp::MinusD => HackWord::spec_neg(d),
            Comp::MinusA => HackWord::spec_neg(a),
            Comp::DPlus1 => HackWord::spec_add(d, HackWord(1)),
            Comp::APlus1 => HackWord::spec_add(a, HackWord(1)),
            Comp::DMinus1 => HackWord::spec_sub(d, HackWord(1)),
            Comp::AMinus1 => HackWord::spec_sub(a, HackWord(1)),
            Comp::DPlusA => HackWord::spec_add(d, a),
            Comp::DMinusA => HackWord::spec_sub(d, a),
            Comp::AMinusD => HackWord::spec_sub(a, d),
            Comp::DAndA => HackWord::spec_and(d, a),
            Comp::DOrA => HackWord::spec_or(d, a),
        }
    }

    /// The state after executing one decoded instruction. Writebacks land
    /// in the order A, D, M, so a memory write targets the new A, and a
    /// taken jump reads the new A as well.
    pub open spec fn spec_step_instr(self, i: Instruction) -> MachineView {
        match i {
            Instruction::A(n) => MachineView {
                a: HackWord(n as i16),
                pc: HackWord::spec_add(self.pc, HackWord(1)),
                ..self
            },
            Instruction::C { comp, should_deref, dest, jump } => {
                let value = self.spec_alu(comp, should_deref);
                let m1 = if dest.a {
                    MachineView { a: value, ..self }
                } else {
                    self
                };
                let m2 = if dest.d {
                    MachineView { d: value, ..m1 }
                } else {
                    m1
                };
                let m3 = if dest.m {
                    MachineView { memory: m2.memory.update(m2.a_index(), value), ..m2 }
                } else {
                    m2
                };
                let pc = if jump.spec_should_jump(value) {
                    m3.a
                } else {
                    HackWord::spec_add(self.pc, HackWord(1))
                };
                MachineView { pc, ..m3 }
            },
        }
    }

    /// What fetching at the current program counter yields: nothing past
    /// the end of the program, otherwise the decoded instruction or the
    /// decoder's error.
    pub open spec fn spec_fetch(m: MachineView) -> Result<Option<Instruction>, DecodeError> {
        if m.halted() {
            Ok(None)
        } else {
            match Instruction::spec_decode(m.instructions[m.pc_index()]) {
                Ok(i) => Ok(Some(i)),
                Err(e) => Err(e),
            }
        }
    }

    /// One fetch-decode-execute step: the next state, paired with whether
    /// an instruction was executed (`Ok(false)` means the machine had
    /// halted) or the decoder's error.
    pub open spec fn spec_step(m: MachineView) -> (MachineView, Result<bool, DecodeError>) {
        match MachineView::spec_fetch(m) {
            Ok(Some(i)) => (m.spec_step_instr(i), Ok(true)),
            Ok(None) => (m, Ok(false)),
            Err(e) => (m, Err(e)),
        }
    }

    /// Stepping up to `fuel` times: stops with `Ok(true)` on halt,
    /// `Ok(false)` when the budget runs out first, and the decoder's error
    /// if an instruction fails to decode.
    pub open spec fn spec_run(m: MachineView, fuel: nat) -> (MachineView, Result<
        bool,
        DecodeError,
    >)
        decreases fuel,
    {
        if m.halted() {
            (m, Ok(true))
        } else if fuel == 0 {
            (m, Ok(false))
        } else {
            match MachineView::spec_fetch(m) {
                Ok(Some(i)) => MachineView::spec_run(m.spec_step_instr(i), (fuel - 1) as nat),
                Ok(None) => (m, Ok(true)),
                Err(e) => (m, Err(e)),
            }
        }
    }
}

impl Machine {
    /// Well-formedness of the executable machine.
    pub open spec fn wf(self) -> bool {
        self@.wf()
    }

    /// A machine with no program and every register and memory cell zero.
    pub fn new() -> (r: Machine)
        ensures
            r.wf(),
            r@.instructions.len() == 0,
            r@.pc.0 == 0,
            r@.a.0 == 0,
            r@.d.0 == 0,
            forall|i: int| 0 <= i < MEMORY_SIZE ==> r@.memory[i].0 == 0,
    {
        Machine {
            instructions: Vec::new(),
            current_instruction: HackWord::zero(),
            memory: vec![HackWord(0); MEMORY_SIZE],
            register_a: HackWord::zero(),
            register_d: HackWord::zero(),
        }
    }

    /// A zeroed machine loaded with the given program.
    pub fn from_instructions(instructions: Vec<HackWord>) -> (r: Machine)
        ensures
            r.wf(),
            r@.instructions == instructions@,
            r@.pc.0 == 0,
            r@.a.0 == 0,
            r@.d.0 == 0,
            forall|i: int| 0 <= i < MEMORY_SIZE ==> r@.memory[i].0 == 0,
    {
        let mut m = Machine::new();
        m.load_instructions(instructions);
        m
    }

    /// Replaces the loaded program; registers and memory are untouched.
    pub fn load_instructions(&mut self, instructions: Vec<HackWord>)
        ensures
            final(self)@ == (MachineView { instructions: instructions@, ..old(self)@ }),
    {
        self.instructions = instructions;
    }

    /// Register A.
    pub fn a(&self) -> (r: HackWord)
        ensures
            r == self@.a,
    {
        self.register_a
    }

    /// Register D.
    pub fn d(&self) -> (r: HackWord)
        ensures
            r == self@.d,
    {
        self.register_d
    }

    /// The program counter.
    pub fn pc(&self) -> (r: HackWord)
        ensures
            r == self@.pc,
    {
        self.current_instruction
    }

    /// The word at memory address `addr`.
    pub fn read_memory(&self, addr: usize) -> (r: HackWord)
        requires
            self.wf(),
            addr < MEMORY_SIZE,
        ensures
            r == self@.memory[addr as int],
    {
        self.memory[addr]
    }

    /// Register A masked into a memory index below 32,768.
    fn mem_index(&self) -> (r: usize)
        ensures
            r == self@.a_index(),
            r < MEMORY_SIZE,
    {
        let u: u16 = self.register_a.0 as u16;
        let masked: u16 = u & 0x7FFF;
        proof {
            assert(u & 0x7FFF < 32768) by (bit_vector);
        }
        masked as usize
    }

    /// Fetches and decodes the instruction under the program counter.
    fn ins(&self) -> (r: Result<Option<Instruction>, DecodeError>)
        requires
            self.wf(),
        ensures
            r == MachineView::spec_fetch(self@),
    {
        let i = self.current_instruction.to_usize();
        if i < self.instructions.len() {
            match Instruction::decode(self.instructions[i]) {
                Ok(ins) => Ok(Some(ins)),
                Err(e) => Err(e),
            }
        } else {
            Ok(None)
        }
    }

    /// Executes one already-decoded instruction.
    fn step_ins(&mut self, current: Instruction)
        requires
            old(self).wf(),
        ensures
            final(self).wf(),
            final(self)@ == old(self)@.spec_step_instr(current),
    {
        match current {
            Instruction::A(dest) => {
                self.register_a = HackWord(dest as i16);
                self.current_instruction = self.current_instruction.wrapping_add(HackWord::one());
            },
            Instruction::C { comp, should_deref, dest, jump } => {
                let value = {
                    let d = self.register_d;
                    let a = if should_deref {
                        let idx = self.mem_index();
                        self.memory[idx]
                    } else {
                        self.register_a
                    };
                    match comp {
                        Comp::Zero => HackWord::zero(),
                        Comp::One => HackWord::one(),
                        Comp::MinusOne => HackWord::minus_one(),
                        Comp::D => d,
                        Comp::A => a,
                        Comp::NotD => d.not(),
                        Comp::NotA => a.not(),
                        Comp::MinusD => d.wrapping_neg(),
                        Comp::MinusA => a.wrapping_neg(),
                        Comp::DPlus1 => d.wrapping_add(HackWord::one()),
                        Comp::APlus1 => a.wrapping_add(HackWord::one()),
                        Comp::DMinus1 => d.wrapping_sub(HackWord::one()),
                        Comp::AMinus1 => a.wrapping_sub(HackWord::one()),
                        Comp::DPlusA => d.wrapping_add(a),
                        Comp::DMinusA => d.wrapping_sub(a),
                        Comp::AMinusD => a.wrapping_sub(d),
                        Comp::DAndA => d.and(a),
                        Comp::DOrA => d.or(a),
                    }
                };
                if dest.a {
                    self.register_a = value;
                }
                if dest.d {
                    self.register_d = value;
                }
                if dest.m {
                    let idx = self.mem_index();
                    self.memory[idx] = value;
                }
                self.current_instruction = if jump.should_jump(value) {
                    self.register_a
                } else {
                    self.current_instruction.wrapping_add(HackWord::one())
                };
                proof {
                    assert(self@ =~= old(self)@.spec_step_instr(current));
                }
            },
        }
    }

    /// One fetch-decode-execute step. Returns `Ok(false)` when the program
    /// counter is at or past the end of the program (the machine halted),
    /// `Ok(true)` after executing one instruction, and the decoder's error
    /// if the fetched word does not decode; on halt or error nothing
    /// changes.
    pub fn step(&mut self) -> (r: Result<bool, DecodeError>)
        requires
            old(self).wf(),
        ensures
            final(self).wf(),
            final(self)@ == MachineView::spec_step(old(self)@).0,
            r == MachineView::spec_step(old(self)@).1,
    {
        match self.ins() {
            Ok(Some(current)) => {
                self.step_ins(current);
                Ok(true)
            },
            Ok(None) => Ok(false),
            Err(e) => Err(e),
        }
    }

    /// Steps until the machine halts, a word fails to decode, or
    /// `max_steps` instructions have run. Returns `Ok(true)` on a clean
    /// halt and `Ok(false)` when the step budget ran out first.
    pub fn run(&mut self, max_steps: u64) -> (r: Result<bool, DecodeError>)
        requires
            old(self).wf(),
        ensures
            final(self).wf(),
            final(self)@ == MachineView::spec_run(old(self)@, max_steps as nat).0,
            r == MachineView::spec_run(old(self)@, max_steps as nat).1,
    {
        let ghost m0 = self@;
        let mut fuel: u64 = max_steps;
        loop
            invariant
                self.wf(),
                m0 == old(self)@,
                MachineView::spec_run(self@, fuel as nat) == MachineView::spec_run(
                    m0,
                    max_steps as nat,
                ),
            decreases fuel,
        {
            if fuel == 0 {
                let pc = self.current_instruction.to_usize();
                let halted = pc >= self.instructions.len();
                return Ok(halted);
            }
            match self.step() {
                Ok(true) => {
                    fuel = fuel - 1;
                },
                Ok(false) => {
                    return Ok(true);
                },
                Err(e) => {
                    return Err(e);
                },
            }
        }
    }
}

/// Law: a C-instruction whose destination set is empty and whose jump is
/// absent changes only the program counter, which advances by one; the
/// registers, the memory, and the program stay as they were.
pub proof fn lemma_step_only_pc(m: MachineView, comp: Comp, should_deref: bool)
    ensures
        ({
            let next = m.spec_step_instr(
                Instruction::C {
                    comp,
                    should_deref,
                    dest: Dest { a: false, d: false, m: false },
                    jump: Jump::Null,
                },
            );
            next.a == m.a && next.d == m.d && next.memory == m.memory && next.instructions
                == m.instructions && next.pc == HackWord::spec_add(m.pc, HackWord(1))
        }),
{
}


/// Assembles source text, loads the words into the machine, and runs it
/// for at most `max_steps` instructions. A parse error leaves the machine
/// untouched; otherwise the machine ends exactly where running the
/// assembled program leaves it, with `Ok(true)` on a clean halt,
/// `Ok(false)` when the step budget ran out, and the decoder's error if a
/// word failed to decode.
pub fn run_asm(source: &str, machine: &mut Machine, max_steps: u64) -> (r: Result<
    bool,
    HackError,
>)
    requires
        old(machine).wf(),
    ensures
        final(machine).wf(),
        ({
            let lv = assembler::spec_lines_from(source@, 0);
            match assembler::spec_parse_all(lv) {
                Err(e) => {
                    &&& final(machine)@ == old(machine)@
                    &&& (r matches Err(he) && he matches HackError::Compile(ce) && (
                    ce.line as int,
                    ce.error@,
                ) == e)
                },
                Ok(p) => {
                    let words = assembler::spec_compile(p, lv).words;
                    let loaded = MachineView { instructions: words, ..old(machine)@ };
                    let outcome = MachineView::spec_run(loaded, max_steps as nat);
                    &&& final(machine)@ == outcome.0
                    &&& (match outcome.1 {
                        Ok(b) => r == Ok::<bool, HackError>(b),
                        Err(e) => r == Err::<bool, HackError>(HackError::Decode(e)),
                    })
                },
            }
        }),
{
    let instructions = match assembler::compile_lines(source) {
        Ok(ws) => ws,
        Err(e) => {
            return Err(HackError::Compile(e));
        },
    };
    machine.load_instructions(instructions);
    match machine.run(max_steps) {
        Ok(b) => Ok(b),
        Err(e) => Err(HackError::Decode(e)),
    }
}


/// Law: a memory-operand increment that writes only to memory -- `M=M+1`
/// -- bumps the cell register A selects by one, wrapping, and leaves A,
/// D, the rest of memory and the program as they were; the program
/// counter advances by one.
pub proof fn lemma_step_memory_increment(m: MachineView)
    requires
        m.wf(),
    ensures
        ({
            let next = m.spec_step_instr(
                Instruction::C {
                    comp: Comp::APlus1,
                    should_deref: true,
                    dest: Dest { a: false, d: false, m: true },
                    jump: Jump::Null,
                },
            );
            &&& next.a == m.a
            &&& next.d == m.d
            &&& next.instructions == m.instructions
            &&& next.memory == m.memory.update(
                m.a_index(),
                HackWord::spec_add(m.memory[m.a_index()], HackWord(1)),
            )
            &&& next.pc == HackWord::spec_add(m.pc, HackWord(1))
        }),
{
}

/// Law: `AM=D+1` updates register A before the memory write, so both the
/// new A and the cell the new A selects hold D plus one; D is unchanged
/// and the program counter advances by one.
pub proof fn lemma_step_a_before_memory(m: MachineView)
    requires
        m.wf(),
    ensures
        ({
            let value = HackWord::spec_add(m.d, HackWord(1));
            let next = m.spec_step_instr(
                Instruction::C {
                    comp: Comp::DPlus1,
                    should_deref: false,
                    dest: Dest { a: true, d: false, m: true },
                    jump: Jump::Null,
                },
            );
            &&& next.a == value
            &&& next.d == m.d
            &&& next.instructions == m.instructions
            &&& next.memory == m.memory.update((value.spec_u16() & 0x7FFF) as int, value)
            &&& next.pc == HackWord::spec_add(m.pc, HackWord(1))
        }),
{
}

/// Law: an unconditional jump is taken whatever the computed value: with
/// an empty destination set, the next program counter is register A and
/// the registers, the memory and the program stay as they were.
pub proof fn lemma_step_jump_always(m: MachineView, comp: Comp, should_deref: bool)
    ensures
        ({
            let next = m.spec_step_instr(
                Instruction::C {
                    comp,
                    should_deref,
                    dest: Dest { a: false, d: false, m: false },
                    jump: Jump::JMP,
                },
            );
            &&& next.pc == m.a
            &&& next.a == m.a
            &&& next.d == m.d
            &&& next.memory == m.memory
            &&& next.instructions == m.instructions
        }),
{
}

} // verus!
