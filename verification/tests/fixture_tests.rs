use c64_core::fixtures::{prg_bytes, CODE_BYTES, LOAD_ADDR, LOOP_ADDR, SUB_ADDR};
use c64_core::Memory;

#[test]
fn the_fixture_loads_at_its_declared_address_with_every_byte_intact() {
    let mut mem = Memory::new();
    let (addr, len) = mem
        .load_prg(&prg_bytes())
        .expect("the fixture is a well-formed PRG");
    assert_eq!(addr, LOAD_ADDR);
    assert_eq!(len, CODE_BYTES.len());
    for (i, &expected) in CODE_BYTES.iter().enumerate() {
        let a = LOAD_ADDR + i as u16;
        assert_eq!(mem.read(a), expected, "byte at ${a:04X} mismatched");
    }
}

#[test]
fn the_bne_relative_offset_actually_targets_the_loop_label() {
    let branch_addr: u16 = 0x080A;
    let after_branch = branch_addr + 2;
    let offset = CODE_BYTES[(branch_addr - LOAD_ADDR) as usize + 1] as i8;
    let target = (after_branch as i32 + offset as i32) as u16;
    assert_eq!(
        target, LOOP_ADDR,
        "BNE's computed target must be the loop label"
    );
}

#[test]
fn the_jsr_operand_actually_targets_the_sub_label() {
    let jsr_addr: u16 = 0x080C;
    let opcode_offset = (jsr_addr - LOAD_ADDR) as usize;
    assert_eq!(CODE_BYTES[opcode_offset], 0x20, "must be JSR's opcode");
    let lo = CODE_BYTES[opcode_offset + 1];
    let hi = CODE_BYTES[opcode_offset + 2];
    let target = u16::from_le_bytes([lo, hi]);
    assert_eq!(
        target, SUB_ADDR,
        "JSR's operand must be the sub label's address"
    );
}

#[test]
fn the_fixture_is_exactly_18_bytes_of_code_with_no_gaps_or_overlaps() {
    assert_eq!(CODE_BYTES.len(), 18);
    assert_eq!(LOAD_ADDR + CODE_BYTES.len() as u16 - 1, 0x0811);
}

#[test]
fn prg_bytes_is_the_little_endian_header_then_the_code() {
    let prg = prg_bytes();
    assert_eq!(prg.len(), 20);
    assert_eq!(prg[0], 0x00);
    assert_eq!(prg[1], 0x08);
    assert_eq!(&prg[2..], &CODE_BYTES[..]);
}

#[test]
fn instruction_start_mask_selects_the_ten_instruction_starts() {
    let m = c64_core::fixtures::instruction_start_mask();
    assert_eq!(m.count(), 10);
    assert_eq!(
        m.materialize_addresses(),
        c64_core::fixtures::INSTRUCTION_START_ADDRS.to_vec()
    );
    assert!(m.contains(0x0800));
    assert!(!m.contains(0x0801));
}
