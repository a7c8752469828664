//! The memory map of the I/O surface, and the `.hack` text reader.
//!
//! The host surface reads the screen region of memory and writes a
//! keycode into the keyboard cell; the CPU itself drives no I/O.

use vstd::prelude::*;
use crate::errors::{CompileError, ParseError};
use crate::hackword::HackWord;
use crate::assembler::views_of;
use crate::machine::Machine;

verus! {

pub const SCREEN_MEM_START: u16 = 0x4000;

pub const KB_MEM_SLOT: u16 = 0x6000;

pub const SCREEN_WIDTH: usize = 512;

pub const SCREEN_HEIGHT: usize = 256;

/// What reading a `.hack` text yields: each line parsed as one 16-bit
/// binary word, or the 1-based number of the first line that is not one.
pub open spec fn spec_read_instructions(lv: Seq<Seq<char>>) -> Result<Seq<HackWord>, int>
    decreases lv.len(),
{
    if lv.len() == 0 {
        Ok(Seq::empty())
    } else {
        match spec_read_instructions(lv.drop_last()) {
            Err(e) => Err(e),
            Ok(pre) => match HackWord::spec_parse_word(lv.last()) {
                Some(w) => Ok(pre.push(w)),
                None => Err(lv.len() as int),
            },
        }
    }
}

/// A word that fails to parse on line `k` (with every earlier line
/// parsing) fails the whole text.
proof fn lemma_read_err(lv: Seq<Seq<char>>, k: int)
    requires
        0 <= k < lv.len(),
        spec_read_instructions(lv.subrange(0, k)) is Ok,
        HackWord::spec_parse_word(lv[k]) is None,
    ensures
        spec_read_instructions(lv) == Err::<Seq<HackWord>, int>(k + 1),
    decreases lv.len(),
{
    if k == lv.len() - 1 {
        assert(lv.subrange(0, k) =~= lv.drop_last());
    } else {
        assert(lv.drop_last().subrange(0, k) =~= lv.subrange(0, k));
        assert(lv.drop_last()[k] == lv[k]);
        lemma_read_err(lv.drop_last(), k);
    }
}

/// Parses `.hack` text: one 16-character binary word per line, most
/// significant bit first. The first line that is not one fails the whole
/// read, with its 1-based line number.
pub fn read_instructions(lines: &Vec<String>) -> (r: Result<Vec<HackWord>, CompileError>)
    ensures
        ({
            let lv = views_of(lines@);
            match r {
                Ok(ws) => spec_read_instructions(lv) == Ok::<Seq<HackWord>, int>(ws@),
                Err(ce) => spec_read_instructions(lv) == Err::<Seq<HackWord>, int>(ce.line as int)
                    && ce.error is MalformedLine,
            }
        }),
{
    let ghost lv = views_of(lines@);
    let mut ws: Vec<HackWord> = Vec::new();
    proof {
        assert(lv.subrange(0, 0) =~= Seq::<Seq<char>>::empty());
        assert(ws@ =~= Seq::<HackWord>::empty());
    }
    let mut i: usize = 0;
    while i < lines.len()
        invariant
            i <= lines@.len(),
            lv == views_of(lines@),
            spec_read_instructions(lv.subrange(0, i as int)) == Ok::<Seq<HackWord>, int>(ws@),
        decreases lines@.len() - i,
    {
        match HackWord::from_str(lines[i].as_str()) {
            Ok(w) => {
                let ghost before = ws@;
                ws.push(w);
                proof {
                    assert(ws@ =~= before.push(w));
                    assert(lv.subrange(0, (i + 1) as int).drop_last() =~= lv.subrange(
                        0,
                        i as int,
                    ));
                }
            },
            Err(_) => {
                proof {
                    lemma_read_err(lv, i as int);
                }
                return Err(CompileError { line: i + 1, error: ParseError::MalformedLine });
            },
        }
        i = i + 1;
    }
    proof {
        assert(lv.subrange(0, lines@.len() as int) =~= lv);
    }
    Ok(ws)
}


/// The colour of screen pixel `p` (row-major over the 512 by 256 screen):
/// each word of the framebuffer paints sixteen pixels, the numerically
/// least significant bit leftmost -- opposite to the bit-value ordering,
/// so bit position 15 of the word shows first; a set bit is black (0), a
/// clear bit white (0xFFFFFF).
pub open spec fn spec_pixel(mem: Seq<HackWord>, p: int) -> u32 {
    let row = p / 512;
    let col = p % 512;
    if mem[0x4000 + row * 32 + col / 16].spec_bit(15 - col % 16) {
        0
    } else {
        0xFFFFFF
    }
}

/// Renders the screen region of memory into a row-major pixel buffer of
/// 512 by 256 pixels.
pub fn write_to_screen(machine: &Machine, buffer: &mut Vec<u32>)
    requires
        machine.wf(),
        old(buffer)@.len() == SCREEN_WIDTH * SCREEN_HEIGHT,
    ensures
        final(buffer)@.len() == old(buffer)@.len(),
        forall|p: int|
            0 <= p < SCREEN_WIDTH * SCREEN_HEIGHT ==> final(buffer)@[p] == spec_pixel(
                machine@.memory,
                p,
            ),
{
    let mut p: usize = 0;
    while p < SCREEN_WIDTH * SCREEN_HEIGHT
        invariant
            machine.wf(),
            p <= SCREEN_WIDTH * SCREEN_HEIGHT,
            buffer@.len() == SCREEN_WIDTH * SCREEN_HEIGHT,
            forall|q: int| 0 <= q < p ==> buffer@[q] == spec_pixel(machine@.memory, q),
        decreases SCREEN_WIDTH * SCREEN_HEIGHT - p,
    {
        let row = p / 512;
        let col = p % 512;
        proof {
            assert(row < 256 && col < 512) by (nonlinear_arith)
                requires
                    row == p / 512,
                    col == p % 512,
                    p < 131072,
            ;
            assert(col / 16 < 32);
        }
        let addr = 16384 + row * 32 + col / 16;
        let word = machine.read_memory(addr);
        let pix: u32 = if word.bit((15 - col % 16) as u8) {
            0
        } else {
            0xFFFFFF
        };
        buffer[p] = pix;
        p = p + 1;
    }
}

} // verus!
