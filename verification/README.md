# c64_core

A verified model of a C64's flat 64 KiB address space, written in Verus.

- `src/memory.rs`: `Memory`, the 65,536-byte resident array, and its PRG
  loader (`load_prg`), with `LoadError` and its message.
- `src/mask.rs`: `AddressMask`, a packed 65,536-bit set of addresses with
  word-wise AND / OR / AND-NOT, a popcount-based `count`, and the ascending
  listing `materialize_addresses`.
- `src/row_store.rs`: `RowStore`, one `Memory` joined with named `Lane`s
  (masks), with lookup by name and reads gated by a lane.
- `src/fixtures.rs`: a hand-assembled 6502 program and its PRG stream.
- `app/`: `std` error plumbing (`Display`, `std::error::Error`) for load
  errors, and `app/lift.rs`: `disassembler` and `lift`, which lift 6502 code
  to R2IL through the outside crates `r2sleigh_lift` and `r2il`. Those crates
  cannot be had in this build, so `app/lift.rs` does not compile here and
  nothing in the verified library depends on it.

Each public function states what it returns in `ensures`; the `law_*` proof
functions state the properties that span several calls.
