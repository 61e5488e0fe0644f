use c64_core::{LoadError, Memory, ADDRESS_SPACE_SIZE};

#[test]
fn a_fresh_memory_is_zeroed() {
    let mem = Memory::new();
    assert_eq!(mem.read(0x0000), 0);
    assert_eq!(mem.read(0xFFFF), 0);
}

#[test]
fn read_write_round_trips_at_every_boundary() {
    let mut mem = Memory::new();
    for addr in [0x0000u16, 0x0001, 0x7FFF, 0x8000, 0xFFFE, 0xFFFF] {
        mem.write(addr, 0xAB);
        assert_eq!(mem.read(addr), 0xAB, "addr ${addr:04X} did not round-trip");
    }
}

#[test]
fn load_prg_places_payload_at_its_declared_load_address() {
    let mut mem = Memory::new();
    let prg = [0x01, 0x08, 0xA9, 0x10];
    let (addr, len) = mem.load_prg(&prg).expect("valid PRG must load");
    assert_eq!(addr, 0x0801);
    assert_eq!(len, 2);
    assert_eq!(mem.read(0x0801), 0xA9);
    assert_eq!(mem.read(0x0802), 0x10);
    assert_eq!(mem.read(0x0800), 0);
    assert_eq!(mem.read(0x0803), 0);
}

#[test]
fn load_prg_at_the_very_top_of_the_address_space_is_exact_not_off_by_one() {
    let mut mem = Memory::new();
    let prg = [0xFE, 0xFF, 0x11, 0x22];
    let (addr, len) = mem.load_prg(&prg).expect("flush-fit PRG must load");
    assert_eq!(addr, 0xFFFE);
    assert_eq!(len, 2);
    assert_eq!(mem.read(0xFFFE), 0x11);
    assert_eq!(mem.read(0xFFFF), 0x22);
}

#[test]
fn load_prg_one_byte_past_the_top_is_rejected_not_wrapped() {
    let mut mem = Memory::new();
    let prg = [0xFE, 0xFF, 0x11, 0x22, 0x33];
    let err = mem
        .load_prg(&prg)
        .expect_err("overflowing PRG must be rejected");
    assert_eq!(
        err,
        LoadError::PayloadOverflows {
            load_addr: 0xFFFE,
            payload_len: 3,
        }
    );
    assert_eq!(mem.read(0xFFFE), 0);
}

#[test]
fn a_prg_with_no_payload_loads_zero_bytes_without_error() {
    let mut mem = Memory::new();
    let prg = [0x00, 0x08];
    let (addr, len) = mem.load_prg(&prg).expect("header-only PRG is valid, empty");
    assert_eq!(addr, 0x0800);
    assert_eq!(len, 0);
}

#[test]
fn a_prg_shorter_than_the_header_is_rejected() {
    let mut mem = Memory::new();
    assert_eq!(
        mem.load_prg(&[0x01])
            .expect_err("1-byte PRG has no full header"),
        LoadError::TooShortForHeader
    );
    assert_eq!(
        mem.load_prg(&[]).expect_err("empty PRG has no header"),
        LoadError::TooShortForHeader
    );
}

#[test]
fn a_rejected_load_leaves_every_byte_untouched() {
    let mut mem = Memory::new();
    mem.write(0x1000, 0x5A);
    mem.write(0xFFFF, 0xC3);
    let before = mem.as_slice().to_vec();
    let prg = [0x00, 0xF0, 1, 2, 3, 4, 5, 6, 7, 8];
    let mut big = prg.to_vec();
    big.extend(std::iter::repeat(9u8).take(0x1000));
    assert!(mem.load_prg(&big).is_err());
    assert!(mem.load_prg(&[0x42]).is_err());
    assert_eq!(mem.as_slice().to_vec(), before);
}

#[test]
fn a_load_overwrites_only_its_own_range() {
    let mut mem = Memory::new();
    for a in 0x0FF0u16..0x1010 {
        mem.write(a, 0xEE);
    }
    let prg = [0x00, 0x10, 0x01, 0x02, 0x03];
    assert_eq!(mem.load_prg(&prg), Ok((0x1000, 3)));
    assert_eq!(mem.read(0x0FFF), 0xEE);
    assert_eq!(mem.read(0x1000), 0x01);
    assert_eq!(mem.read(0x1001), 0x02);
    assert_eq!(mem.read(0x1002), 0x03);
    assert_eq!(mem.read(0x1003), 0xEE);
}

#[test]
fn the_whole_address_space_can_be_filled_by_one_prg() {
    let mut mem = Memory::new();
    let mut prg = vec![0x00, 0x00];
    prg.extend((0..ADDRESS_SPACE_SIZE).map(|i| (i % 251) as u8));
    assert_eq!(mem.load_prg(&prg), Ok((0x0000, ADDRESS_SPACE_SIZE)));
    assert_eq!(mem.read(0x0000), 0);
    assert_eq!(mem.read(0xFFFF), (0xFFFF % 251) as u8);
    let mut prg2 = vec![0x01, 0x00];
    prg2.extend(std::iter::repeat(7u8).take(ADDRESS_SPACE_SIZE));
    assert_eq!(
        mem.load_prg(&prg2),
        Err(LoadError::PayloadOverflows { load_addr: 1, payload_len: ADDRESS_SPACE_SIZE })
    );
}

#[test]
fn as_slice_shows_every_byte_and_default_is_zeroed() {
    let mut mem = Memory::default();
    mem.write(0x1234, 0x77);
    let bytes = mem.as_slice();
    assert_eq!(bytes.len(), ADDRESS_SPACE_SIZE);
    assert_eq!(bytes[0x1234], 0x77);
    assert_eq!(bytes.iter().filter(|&&b| b != 0).count(), 1);
}

#[test]
fn load_error_messages_name_the_numbers() {
    assert_eq!(
        LoadError::TooShortForHeader.message(),
        "PRG too short to contain a 2-byte load address header"
    );
    assert_eq!(
        LoadError::PayloadOverflows { load_addr: 0xFFFE, payload_len: 3 }.message(),
        "PRG payload of 3 bytes at load address $FFFE would run past the end of the 64 KiB address space"
    );
    assert_eq!(
        LoadError::PayloadOverflows { load_addr: 0x00A0, payload_len: 65500 }.message(),
        "PRG payload of 65500 bytes at load address $00A0 would run past the end of the 64 KiB address space"
    );
    assert_eq!(
        LoadError::PayloadOverflows { load_addr: 0, payload_len: 0 }.message(),
        "PRG payload of 0 bytes at load address $0000 would run past the end of the 64 KiB address space"
    );
}
