//! A hand-assembled 6502 fixture, used to check that `Memory::load_prg`
//! places every byte where the assembly puts it.
//!
//! ```text
//!         LDA #$10        ; A9 10
//!         AND #$0F        ; 29 0F
//!         STA $0400       ; 8D 00 04
//!         LDX #$03        ; A2 03
//! loop:   DEX             ; CA
//!         BNE loop        ; D0 FD  (target loop, from $080C: offset -3)
//!         JSR sub         ; 20 10 08
//!         RTS             ; 60
//! sub:    INX             ; E8
//!         RTS             ; 60
//! ```
//!
//! Relative branches are signed offsets from the address after the
//! two-byte branch instruction; JSR takes an absolute little-endian operand.

use vstd::prelude::*;
use crate::mask::AddressMask;

verus! {

/// Load address of the fixture: `$0800`, with no BASIC stub in front.
pub const LOAD_ADDR: u16 = 0x0800;

/// The fixture's machine code, in order, starting at [`LOAD_ADDR`].
pub const CODE_BYTES: [u8; 18] = [
    0xA9, 0x10,
    0x29, 0x0F,
    0x8D, 0x00, 0x04,
    0xA2, 0x03,
    0xCA,
    0xD0, 0xFD,
    0x20, 0x10, 0x08,
    0x60,
    0xE8,
    0x60,
];

/// The address of the `loop:` label (`DEX`).
pub const LOOP_ADDR: u16 = 0x0809;

/// The address of the `sub:` label (`INX`).
pub const SUB_ADDR: u16 = 0x0810;

/// The address of the first byte of each of the fixture's ten instructions.
pub const INSTRUCTION_START_ADDRS: [u16; 10] = [
    0x0800, 0x0802, 0x0804, 0x0807, 0x0809, 0x080A, 0x080C, 0x080F, 0x0810, 0x0811,
];

/// A PRG-shaped byte stream: [`LOAD_ADDR`] as a little-endian two-byte
/// header, then [`CODE_BYTES`].
pub fn prg_bytes() -> (prg: Vec<u8>)
    ensures
        prg@ == seq![0x00u8, 0x08u8] + CODE_BYTES@,
{
    let mut prg: Vec<u8> = Vec::with_capacity(2 + 18);
    prg.push((LOAD_ADDR % 256) as u8);
    prg.push((LOAD_ADDR / 256) as u8);
    let mut i: usize = 0;
    while i < 18
        invariant
            i <= 18,
            prg@ == seq![0x00u8, 0x08u8] + CODE_BYTES@.take(i as int),
        decreases 18 - i,
    {
        prg.push(CODE_BYTES[i]);
        i = i + 1;
    }
    assert(CODE_BYTES@.take(18) =~= CODE_BYTES@);
    prg
}

/// A mask selecting exactly the fixture's instruction starts.
pub fn instruction_start_mask() -> (m: AddressMask)
    ensures
        m@ == INSTRUCTION_START_ADDRS@.to_set(),
{
    let mut m = AddressMask::empty();
    let mut i: usize = 0;
    while i < 10
        invariant
            i <= 10,
            m@ == INSTRUCTION_START_ADDRS@.take(i as int).to_set(),
        decreases 10 - i,
    {
        m.set(INSTRUCTION_START_ADDRS[i]);
        proof {
            let prefix = INSTRUCTION_START_ADDRS@.take(i as int);
            assert(INSTRUCTION_START_ADDRS@.take(i + 1) =~= prefix.push(INSTRUCTION_START_ADDRS@[i as int]));
            prefix.lemma_push_to_set_commute(INSTRUCTION_START_ADDRS@[i as int]);
        }
        i = i + 1;
    }
    assert(INSTRUCTION_START_ADDRS@.take(10) =~= INSTRUCTION_START_ADDRS@);
    m
}

} // verus!
