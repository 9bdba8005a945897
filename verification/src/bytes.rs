//! Little-endian numbers in byte strings.

use vstd::prelude::*;

verus! {

/// The unsigned 32-bit little-endian number at `at`.
pub open spec fn le_u32(bytes: Seq<u8>, at: int) -> nat {
    (bytes[at] as nat) + (bytes[at + 1] as nat) * 0x100 + (bytes[at + 2] as nat) * 0x1_0000 + (
    bytes[at + 3] as nat) * 0x100_0000
}

/// The unsigned 64-bit little-endian number at `at`.
pub open spec fn le_u64(bytes: Seq<u8>, at: int) -> nat {
    le_u32(bytes, at) + le_u32(bytes, at + 4) * 0x1_0000_0000
}

/// The two's-complement reading of a 32-bit pattern.
pub open spec fn signed32(pattern: nat) -> int {
    if pattern < 0x8000_0000 {
        pattern as int
    } else {
        pattern - 0x1_0000_0000
    }
}

/// The two's-complement reading of a 64-bit pattern.
pub open spec fn signed64(pattern: nat) -> int {
    if pattern < 0x8000_0000_0000_0000 {
        pattern as int
    } else {
        pattern - 0x1_0000_0000_0000_0000
    }
}

/// The two's-complement reading of an 8-bit pattern.
pub open spec fn signed8(pattern: nat) -> int {
    if pattern < 0x80 {
        pattern as int
    } else {
        pattern - 0x100
    }
}

/// The 32 bytes at `at`.
pub open spec fn bytes32(bytes: Seq<u8>, at: int) -> Seq<u8> {
    bytes.subrange(at, at + 32)
}

/// Reads the unsigned 32-bit number at `at`.
pub(crate) fn read_u32(data: &[u8], at: usize) -> (v: u32)
    requires
        at + 4 <= data@.len(),
    ensures
        v == le_u32(data@, at as int),
{
    let b0: u32 = data[at] as u32;
    let b1: u32 = data[at + 1] as u32;
    let b2: u32 = data[at + 2] as u32;
    let b3: u32 = data[at + 3] as u32;
    b0 + b1 * 0x100 + b2 * 0x1_0000 + b3 * 0x100_0000
}

/// Reads the unsigned 64-bit number at `at`.
pub(crate) fn read_u64(data: &[u8], at: usize) -> (v: u64)
    requires
        at + 8 <= data@.len() <= usize::MAX,
    ensures
        v == le_u64(data@, at as int),
{
    let low: u64 = read_u32(data, at) as u64;
    let high: u64 = read_u32(data, at + 4) as u64;
    low + high * 0x1_0000_0000
}

/// Reads the signed 32-bit number at `at`.
pub(crate) fn read_i32(data: &[u8], at: usize) -> (v: i32)
    requires
        at + 4 <= data@.len(),
    ensures
        v == signed32(le_u32(data@, at as int)),
{
    let pattern: u32 = read_u32(data, at);
    if pattern < 0x8000_0000 {
        pattern as i32
    } else {
        let rest: i32 = (pattern - 0x8000_0000) as i32;
        rest + i32::MIN
    }
}

/// Reads the signed 64-bit number at `at`.
pub(crate) fn read_i64(data: &[u8], at: usize) -> (v: i64)
    requires
        at + 8 <= data@.len() <= usize::MAX,
    ensures
        v == signed64(le_u64(data@, at as int)),
{
    let pattern: u64 = read_u64(data, at);
    if pattern < 0x8000_0000_0000_0000 {
        pattern as i64
    } else {
        let rest: i64 = (pattern - 0x8000_0000_0000_0000) as i64;
        rest + i64::MIN
    }
}

/// Reads the signed byte at `at`.
pub(crate) fn read_i8(data: &[u8], at: usize) -> (v: i8)
    requires
        at < data@.len(),
    ensures
        v == signed8(data@[at as int] as nat),
{
    let pattern: u8 = data[at];
    if pattern < 0x80 {
        pattern as i8
    } else {
        let rest: i8 = (pattern - 0x80) as i8;
        rest + i8::MIN
    }
}

/// Reads the 32 bytes at `at`.
pub(crate) fn read_bytes32(data: &[u8], at: usize) -> (v: [u8; 32])
    requires
        at + 32 <= data@.len() <= usize::MAX,
    ensures
        v@ == bytes32(data@, at as int),
{
    let mut v: [u8; 32] = [0u8; 32];
    let mut i: usize = 0;
    while i < 32
        invariant
            i <= 32,
            at + 32 <= data@.len() <= usize::MAX,
            v@.len() == 32,
            forall|j: int| 0 <= j < i ==> v@[j] == data@[at + j],
        decreases 32 - i,
    {
        v[i] = data[at + i];
        i = i + 1;
    }
    assert(v@ =~= bytes32(data@, at as int));
    v
}

/// Whether `after` is `before` but for the `count` bytes at `at`.
pub open spec fn differs_only_at(before: Seq<u8>, after: Seq<u8>, at: int, count: int) -> bool {
    &&& after.len() == before.len()
    &&& forall|j: int|
        0 <= j < before.len() && !(at <= j < at + count) ==> #[trigger] after[j] == before[j]
}

/// Writes `v` at `at` as four little-endian bytes.
pub(crate) fn put_u32(out: &mut Vec<u8>, at: usize, v: u32)
    requires
        at + 4 <= old(out)@.len(),
    ensures
        differs_only_at(old(out)@, final(out)@, at as int, 4),
        le_u32(final(out)@, at as int) == v,
{
    let _len: usize = out.len();
    out.set(at, (v % 0x100) as u8);
    out.set(at + 1, (v / 0x100 % 0x100) as u8);
    out.set(at + 2, (v / 0x1_0000 % 0x100) as u8);
    out.set(at + 3, (v / 0x100_0000) as u8);
}

/// Writes `v` at `at` as eight little-endian bytes.
pub(crate) fn put_u64(out: &mut Vec<u8>, at: usize, v: u64)
    requires
        at + 8 <= old(out)@.len(),
    ensures
        differs_only_at(old(out)@, final(out)@, at as int, 8),
        le_u64(final(out)@, at as int) == v,
{
    let _len: usize = out.len();
    put_u32(out, at, (v % 0x1_0000_0000) as u32);
    put_u32(out, at + 4, (v / 0x1_0000_0000) as u32);
}

/// Writes `v` at `at` as four little-endian bytes in two's complement.
pub(crate) fn put_i32(out: &mut Vec<u8>, at: usize, v: i32)
    requires
        at + 4 <= old(out)@.len(),
    ensures
        differs_only_at(old(out)@, final(out)@, at as int, 4),
        signed32(le_u32(final(out)@, at as int)) == v,
{
    let pattern: u32 = if v >= 0 {
        v as u32
    } else {
        ((v - i32::MIN) as u32) + 0x8000_0000
    };
    put_u32(out, at, pattern);
}

/// Writes `v` at `at` as eight little-endian bytes in two's complement.
pub(crate) fn put_i64(out: &mut Vec<u8>, at: usize, v: i64)
    requires
        at + 8 <= old(out)@.len(),
    ensures
        differs_only_at(old(out)@, final(out)@, at as int, 8),
        signed64(le_u64(final(out)@, at as int)) == v,
{
    let pattern: u64 = if v >= 0 {
        v as u64
    } else {
        ((v - i64::MIN) as u64) + 0x8000_0000_0000_0000
    };
    put_u64(out, at, pattern);
}

/// Writes `v` at `at` as one byte in two's complement.
pub(crate) fn put_i8(out: &mut Vec<u8>, at: usize, v: i8)
    requires
        at < old(out)@.len(),
    ensures
        differs_only_at(old(out)@, final(out)@, at as int, 1),
        signed8(final(out)@[at as int] as nat) == v,
{
    let pattern: u8 = if v >= 0 {
        v as u8
    } else {
        ((v - i8::MIN) as u8) + 0x80
    };
    out.set(at, pattern);
}

/// Writes one byte at `at`.
pub(crate) fn put_u8(out: &mut Vec<u8>, at: usize, v: u8)
    requires
        at < old(out)@.len(),
    ensures
        differs_only_at(old(out)@, final(out)@, at as int, 1),
        final(out)@[at as int] == v,
{
    out.set(at, v);
}

/// Writes 32 bytes at `at`.
pub(crate) fn put_bytes32(out: &mut Vec<u8>, at: usize, v: &[u8; 32])
    requires
        at + 32 <= old(out)@.len(),
    ensures
        differs_only_at(old(out)@, final(out)@, at as int, 32),
        bytes32(final(out)@, at as int) == v@,
{
    let _len: usize = out.len();
    let mut i: usize = 0;
    while i < 32
        invariant
            i <= 32,
            v@.len() == 32,
            at + 32 <= out@.len() <= usize::MAX,
            differs_only_at(old(out)@, out@, at as int, 32),
            forall|j: int| 0 <= j < i ==> out@[at + j] == v@[j],
        decreases 32 - i,
    {
        out.set(at + i, v[i]);
        i = i + 1;
    }
    assert(bytes32(out@, at as int) =~= v@);
}

/// A string of `count` zero bytes.
pub(crate) fn zeros(count: usize) -> (out: Vec<u8>)
    ensures
        out@.len() == count,
        forall|j: int| 0 <= j < count ==> out@[j] == 0,
{
    let mut out: Vec<u8> = Vec::new();
    let mut i: usize = 0;
    while i < count
        invariant
            i <= count,
            out@.len() == i,
            forall|j: int| 0 <= j < i ==> out@[j] == 0,
        decreases count - i,
    {
        out.push(0);
        i = i + 1;
    }
    out
}

} // verus!
