//! A flat 64 KiB resident address space with a bounds-checked PRG loader.

use vstd::prelude::*;

verus! {

/// Number of addressable bytes in the 6502's 16-bit address space.
pub const ADDRESS_SPACE_SIZE: usize = 65536;

/// Why a PRG stream was refused by [`Memory::load_prg`].
#[derive(Debug, Clone, PartialEq, Eq, Structural)]
pub enum LoadError {
    /// The PRG has fewer than 2 bytes, so no load address could be read.
    TooShortForHeader,
    /// `load_addr + payload_len` runs past `ADDRESS_SPACE_SIZE`.
    PayloadOverflows { load_addr: u16, payload_len: usize },
}

/// Digits for decimal and upper-case hexadecimal rendering.
pub const DIGITS: [char; 16] = ['0', '1', '2', '3', '4', '5', '6', '7', '8', '9', 'A', 'B', 'C', 'D', 'E', 'F'];

/// `n` in decimal, without leading zeros.
pub open spec fn decimal(n: nat) -> Seq<char>
    decreases n,
{
    if n < 10 {
        seq![DIGITS@[n as int]]
    } else {
        decimal(n / 10).push(DIGITS@[(n % 10) as int])
    }
}

/// `a` as exactly four upper-case hexadecimal digits.
pub open spec fn hex4(a: u16) -> Seq<char> {
    let a = a as int;
    seq![DIGITS@[a / 4096], DIGITS@[(a / 256) % 16], DIGITS@[(a / 16) % 16], DIGITS@[a % 16]]
}

/// The human-readable description of a [`LoadError`].
pub open spec fn load_error_message(e: LoadError) -> Seq<char> {
    match e {
        LoadError::TooShortForHeader => "PRG too short to contain a 2-byte load address header"@,
        LoadError::PayloadOverflows { load_addr, payload_len } => "PRG payload of "@ + decimal(
            payload_len as nat,
        ) + " bytes at load address $"@ + hex4(load_addr)
            + " would run past the end of the 64 KiB address space"@,
    }
}

/// `String::push`: append one character.
#[verifier::external_body]
fn push_char(s: &mut String, c: char)
    ensures
        final(s)@ == old(s)@.push(c),
{
    s.push(c);
}

/// Append `n` in decimal.
fn push_decimal(s: &mut String, n: usize)
    ensures
        final(s)@ == old(s)@ + decimal(n as nat),
    decreases n,
{
    if n >= 10 {
        push_decimal(s, n / 10);
    }
    push_char(s, DIGITS[n % 10]);
    assert(s@ =~= old(s)@ + decimal(n as nat));
}

impl LoadError {
    /// The human-readable description of the error.
    pub fn message(&self) -> (text: String)
        ensures
            text@ == load_error_message(*self),
    {
        match self {
            LoadError::TooShortForHeader => String::from_str(
                "PRG too short to contain a 2-byte load address header",
            ),
            LoadError::PayloadOverflows { load_addr, payload_len } => {
                let a = *load_addr;
                let mut text = String::from_str("PRG payload of ");
                push_decimal(&mut text, *payload_len);
                text.append(" bytes at load address $");
                push_char(&mut text, DIGITS[(a / 4096) as usize]);
                push_char(&mut text, DIGITS[((a / 256) % 16) as usize]);
                push_char(&mut text, DIGITS[((a / 16) % 16) as usize]);
                push_char(&mut text, DIGITS[(a % 16) as usize]);
                text.append(" would run past the end of the 64 KiB address space");
                assert(text@ =~= load_error_message(*self));
                text
            },
        }
    }
}

/// The load address that a PRG stream declares in its first two bytes,
/// little-endian.
pub open spec fn prg_load_addr(prg: Seq<u8>) -> int {
    prg[0] + 256 * prg[1]
}

/// The bytes of a PRG stream after its two-byte header.
pub open spec fn prg_payload(prg: Seq<u8>) -> Seq<u8> {
    prg.skip(2)
}

/// `mem` with `payload` copied in starting at `addr`, every other byte kept.
pub open spec fn with_payload(mem: Seq<u8>, addr: int, payload: Seq<u8>) -> Seq<u8> {
    mem.take(addr) + payload + mem.skip(addr + payload.len())
}

/// The byte array that stands for the address space, one entry per address.
pub struct Memory {
    bytes: Box<[u8; ADDRESS_SPACE_SIZE]>,
}

impl View for Memory {
    type V = Seq<u8>;

    closed spec fn view(&self) -> Seq<u8> {
        self.bytes@
    }
}

impl Memory {
    /// The address space always holds exactly [`ADDRESS_SPACE_SIZE`] bytes.
    pub proof fn lemma_size(&self)
        ensures
            self@.len() == ADDRESS_SPACE_SIZE,
    {
    }

    /// A freshly zeroed 64 KiB address space.
    pub fn new() -> (m: Memory)
        ensures
            m@ == Seq::new(ADDRESS_SPACE_SIZE as nat, |i: int| 0u8),
    {
        let m = Memory { bytes: Box::new([0u8; 65536]) };
        assert(m@ =~= Seq::new(ADDRESS_SPACE_SIZE as nat, |i: int| 0u8));
        m
    }

    /// Read a single resident byte.
    pub fn read(&self, addr: u16) -> (value: u8)
        ensures
            value == self@[addr as int],
    {
        self.bytes[addr as usize]
    }

    /// Write a single resident byte.
    pub fn write(&mut self, addr: u16, value: u8)
        ensures
            final(self)@ == old(self)@.update(addr as int, value),
    {
        self.bytes[addr as usize] = value;
    }

    /// Borrow the full resident state, zero-copy.
    pub fn as_slice(&self) -> (bytes: &[u8; ADDRESS_SPACE_SIZE])
        ensures
            bytes@ == self@,
    {
        &self.bytes
    }

    /// Load a `.PRG`-shaped byte stream: the first two bytes (little-endian)
    /// give the load address, the remainder is copied verbatim starting
    /// there. Returns the load address and the length of the copied payload.
    /// A refused stream leaves the memory untouched.
    pub fn load_prg(&mut self, prg: &[u8]) -> (r: Result<(u16, usize), LoadError>)
        ensures
            match r {
                Ok((load_addr, payload_len)) => {
                    &&& prg@.len() >= 2
                    &&& load_addr == prg_load_addr(prg@)
                    &&& payload_len == prg@.len() - 2
                    &&& load_addr + payload_len <= ADDRESS_SPACE_SIZE
                    &&& final(self)@ == with_payload(old(self)@, load_addr as int, prg_payload(prg@))
                },
                Err(LoadError::TooShortForHeader) => {
                    &&& prg@.len() < 2
                    &&& final(self)@ == old(self)@
                },
                Err(LoadError::PayloadOverflows { load_addr, payload_len }) => {
                    &&& prg@.len() >= 2
                    &&& load_addr == prg_load_addr(prg@)
                    &&& payload_len == prg@.len() - 2
                    &&& load_addr + payload_len > ADDRESS_SPACE_SIZE
                    &&& final(self)@ == old(self)@
                },
            },
    {
        if prg.len() < 2 {
            return Err(LoadError::TooShortForHeader);
        }
        let load_addr: u16 = prg[0] as u16 + (prg[1] as u16) * 256;
        let payload_len: usize = prg.len() - 2;
        let start: usize = load_addr as usize;
        if payload_len > ADDRESS_SPACE_SIZE - start {
            return Err(LoadError::PayloadOverflows { load_addr, payload_len });
        }
        let ghost before = self@;
        let mut i: usize = 0;
        while i < payload_len
            invariant
                start + payload_len <= ADDRESS_SPACE_SIZE,
                payload_len == prg@.len() - 2,
                i <= payload_len,
                self@.len() == ADDRESS_SPACE_SIZE,
                before.len() == ADDRESS_SPACE_SIZE,
                forall|j: int| 0 <= j < ADDRESS_SPACE_SIZE ==> #[trigger] self@[j] == (
                    if start <= j < start + i { prg@[j - start + 2] } else { before[j] }),
            decreases payload_len - i,
        {
            self.bytes[start + i] = prg[i + 2];
            i = i + 1;
        }
        assert(self@ =~= with_payload(before, start as int, prg_payload(prg@)));
        Ok((load_addr, payload_len))
    }
}

impl Default for Memory {
    fn default() -> (m: Memory)
        ensures
            m@ == Seq::new(ADDRESS_SPACE_SIZE as nat, |i: int| 0u8),
    {
        Memory::new()
    }
}

/// A read after a write at the same address gives back the byte written;
/// every other address keeps its byte.
pub proof fn law_read_after_write(bytes: Seq<u8>, addr: u16, value: u8, other: u16)
    requires
        bytes.len() == ADDRESS_SPACE_SIZE,
    ensures
        bytes.update(addr as int, value)[addr as int] == value,
        other != addr ==> bytes.update(addr as int, value)[other as int] == bytes[other as int],
{
}

/// An accepted PRG puts payload byte `i` at `load_addr + i`, leaves every
/// address outside the payload's range as it was, and keeps the size of
/// the address space.
pub proof fn law_load_places_payload(bytes: Seq<u8>, prg: Seq<u8>)
    requires
        bytes.len() == ADDRESS_SPACE_SIZE,
        prg.len() >= 2,
        prg_load_addr(prg) + prg_payload(prg).len() <= ADDRESS_SPACE_SIZE,
    ensures
        ({
            let a = prg_load_addr(prg);
            let loaded = with_payload(bytes, a, prg_payload(prg));
            &&& loaded.len() == ADDRESS_SPACE_SIZE
            &&& forall|i: int| 0 <= i < prg.len() - 2 ==> #[trigger] loaded[a + i] == prg[i + 2]
            &&& forall|j: int| 0 <= j < ADDRESS_SPACE_SIZE && !(a <= j < a + prg.len() - 2)
                ==> #[trigger] loaded[j] == bytes[j]
        }),
{
    let a = prg_load_addr(prg);
    let payload = prg_payload(prg);
    let loaded = with_payload(bytes, a, payload);
    assert forall|i: int| 0 <= i < prg.len() - 2 implies #[trigger] loaded[a + i] == prg[i + 2] by {
        assert(loaded[a + i] == payload[i]);
    }
    assert forall|j: int| 0 <= j < ADDRESS_SPACE_SIZE && !(a <= j < a + prg.len() - 2)
        implies #[trigger] loaded[j] == bytes[j] by {
        if j >= a + payload.len() {
            assert(loaded[j] == bytes.skip(a + payload.len())[j - a - payload.len()]);
        }
    }
}

/// The value of one decimal or upper-case hexadecimal digit.
pub open spec fn digit_value(c: char) -> int {
    if '0' <= c && c <= '9' {
        c as int - '0' as int
    } else if 'A' <= c && c <= 'F' {
        c as int - 'A' as int + 10
    } else {
        -1
    }
}

/// The number that a string of digits denotes in the given base.
pub open spec fn digits_value(s: Seq<char>, base: int) -> int
    decreases s.len(),
{
    if s.len() == 0 {
        0
    } else {
        digits_value(s.drop_last(), base) * base + digit_value(s.last())
    }
}

proof fn lemma_digit_values(k: int)
    requires
        0 <= k < 16,
    ensures
        digit_value(DIGITS@[k]) == k,
{
    assert(DIGITS@[k] == DIGITS[k]);
}

/// The decimal rendering used in messages denotes the number it renders,
/// with no leading zero, and uses only the digits `0`–`9`.
pub proof fn law_decimal_reads_back(n: nat)
    ensures
        digits_value(decimal(n), 10) == n,
        decimal(n).len() >= 1,
        forall|i: int| 0 <= i < decimal(n).len() ==> 0 <= #[trigger] digit_value(decimal(n)[i]) < 10,
        n > 0 ==> decimal(n)[0] != '0',
    decreases n,
{
    if n < 10 {
        lemma_digit_values(n as int);
        assert(decimal(n).drop_last() =~= Seq::<char>::empty());
        assert(digits_value(decimal(n), 10) == digits_value(decimal(n).drop_last(), 10) * 10 + digit_value(decimal(n).last()));
    } else {
        law_decimal_reads_back(n / 10);
        lemma_digit_values((n % 10) as int);
        let d = decimal(n);
        assert(d.drop_last() =~= decimal(n / 10));
        assert forall|i: int| 0 <= i < d.len() implies 0 <= #[trigger] digit_value(d[i]) < 10 by {
            if i < d.len() - 1 {
                assert(d[i] == decimal(n / 10)[i]);
            }
        }
        assert(d[0] == decimal(n / 10)[0]);
        assert(d.last() == DIGITS@[(n % 10) as int]);
        assert(digits_value(d, 10) == digits_value(d.drop_last(), 10) * 10 + digit_value(d.last()));
        assert(digits_value(d, 10) == (n / 10) * 10 + n % 10);
    }
}

/// The four hexadecimal digits used in messages denote the address they
/// render.
pub proof fn law_hex4_reads_back(a: u16)
    ensures
        hex4(a).len() == 4,
        digits_value(hex4(a), 16) == a,
{
    let x = a as int;
    lemma_digit_values(x / 4096);
    lemma_digit_values((x / 256) % 16);
    lemma_digit_values((x / 16) % 16);
    lemma_digit_values(x % 16);
    let h = hex4(a);
    assert(h.drop_last().drop_last().drop_last().drop_last() =~= Seq::<char>::empty());
    assert(h.drop_last().drop_last().drop_last() =~= seq![DIGITS@[x / 4096]]);
    assert(h.drop_last().drop_last() =~= seq![DIGITS@[x / 4096], DIGITS@[(x / 256) % 16]]);
    assert(h.drop_last() =~= seq![DIGITS@[x / 4096], DIGITS@[(x / 256) % 16], DIGITS@[(x / 16) % 16]]);
    let h1 = h.drop_last().drop_last().drop_last();
    let h2 = h.drop_last().drop_last();
    let h3 = h.drop_last();
    assert(digits_value(h1.drop_last(), 16) == 0);
    assert(digits_value(h1, 16) == x / 4096);
    assert(digits_value(h2, 16) == digits_value(h1, 16) * 16 + (x / 256) % 16);
    assert(digits_value(h2, 16) == x / 256);
    assert(digits_value(h3, 16) == digits_value(h2, 16) * 16 + (x / 16) % 16);
    assert(digits_value(h3, 16) == x / 16);
    assert(digits_value(h, 16) == digits_value(h3, 16) * 16 + x % 16);
}

} // verus!
