//! Byte-addressed memory holding 32-bit words in little-endian order, at
//! any alignment.
use vstd::prelude::*;

verus! {

/// A four-byte access at `addr` lies inside a memory of `len` bytes.
pub open spec fn word_fits(len: int, addr: int) -> bool {
    0 <= addr && addr + 3 < len
}

/// The value of `v` read as an unsigned 32-bit number.
pub open spec fn unsigned(v: i32) -> int {
    if v < 0 {
        v + 0x1_0000_0000
    } else {
        v as int
    }
}

/// The four bytes of `v`, least significant first.
pub open spec fn le_bytes(v: i32) -> Seq<u8> {
    let u = unsigned(v);
    seq![
        (u % 256) as u8,
        (u / 256 % 256) as u8,
        (u / 0x1_0000 % 256) as u8,
        (u / 0x100_0000) as u8,
    ]
}

/// The `i32` whose little-endian bytes are `b0, b1, b2, b3`.
pub open spec fn le_value(b0: u8, b1: u8, b2: u8, b3: u8) -> i32 {
    let u = b0 + 256 * b1 + 0x1_0000 * b2 + 0x100_0000 * b3;
    if u > i32::MAX {
        (u - 0x1_0000_0000) as i32
    } else {
        u as i32
    }
}

/// The word stored at `addr`.
pub open spec fn word_at(mem: Seq<u8>, addr: int) -> i32 {
    le_value(mem[addr], mem[addr + 1], mem[addr + 2], mem[addr + 3])
}

/// `mem` with the word at `addr` replaced by `v`.
pub open spec fn with_word(mem: Seq<u8>, addr: int, v: i32) -> Seq<u8> {
    mem.take(addr) + le_bytes(v) + mem.skip(addr + 4)
}

/// A word written at an address reads back unchanged, and is laid out as its
/// little-endian bytes.
pub proof fn lemma_word_round_trip(mem: Seq<u8>, addr: int, v: i32)
    requires
        word_fits(mem.len() as int, addr),
    ensures
        with_word(mem, addr, v).len() == mem.len(),
        with_word(mem, addr, v).subrange(addr, addr + 4) == le_bytes(v),
        word_at(with_word(mem, addr, v), addr) == v,
{
    let m = with_word(mem, addr, v);
    assert(m.subrange(addr, addr + 4) =~= le_bytes(v));
    let b = le_bytes(v);
    assert(m[addr] == b[0] && m[addr + 1] == b[1] && m[addr + 2] == b[2] && m[addr + 3] == b[3]);
    let u = unsigned(v);
    assert(b[0] + 256 * b[1] + 0x1_0000 * b[2] + 0x100_0000 * b[3] == u) by (nonlinear_arith)
        requires
            0 <= u < 0x1_0000_0000,
            b[0] == u % 256,
            b[1] == u / 256 % 256,
            b[2] == u / 0x1_0000 % 256,
            b[3] == u / 0x100_0000,
    ;
}

/// The word stored at `addr` in `mem`.
pub fn read_word(mem: &[u8], addr: usize) -> (r: i32)
    requires
        word_fits(mem@.len() as int, addr as int),
    ensures
        r == word_at(mem@, addr as int),
{
    let u: u32 = mem[addr] as u32 + 256 * (mem[addr + 1] as u32) + 0x1_0000 * (mem[addr + 2] as u32)
        + 0x100_0000 * (mem[addr + 3] as u32);
    if u > 0x7fff_ffff {
        ((u - 0x8000_0000) as i32) - 0x7fff_ffff - 1
    } else {
        u as i32
    }
}

/// Stores `v` at `addr` in `mem`.
pub fn write_word(mem: &mut Vec<u8>, addr: usize, v: i32)
    requires
        word_fits(old(mem)@.len() as int, addr as int),
    ensures
        final(mem)@ == with_word(old(mem)@, addr as int, v),
{
    assert(addr + 3 < mem.len());
    let u: u32 = if v < 0 {
        ((v as i64) + 0x1_0000_0000) as u32
    } else {
        v as u32
    };
    mem.set(addr, (u % 256) as u8);
    mem.set(addr + 1, (u / 256 % 256) as u8);
    mem.set(addr + 2, (u / 0x1_0000 % 256) as u8);
    mem.set(addr + 3, (u / 0x100_0000) as u8);
    assert(mem@ =~= with_word(old(mem)@, addr as int, v));
}

} // verus!
