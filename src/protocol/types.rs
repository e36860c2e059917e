//! Primitive wire types: fixed-width integers, varints, strings, byte arrays,
//! nested structures and arrays.
use vstd::prelude::*;

use super::{decoded, Codec, DecodeError, EncodeError, Message};
use super::Uuid as UuidValue;
use vstd::string::StringSliceAdditionalSpecFns;
use vstd::slice::slice_to_vec;
use vstd::utf8::{encode_utf8_valid_utf8, valid_utf8};

verus! {

// ---------------------------------------------------------------------------
// Byte-level helpers
// ---------------------------------------------------------------------------

/// Big-endian bytes of a 16-bit word.
pub open spec fn be16(x: u16) -> Seq<u8> {
    seq![(x >> 8u16) as u8, x as u8]
}

/// The 16-bit word of two big-endian bytes.
pub open spec fn from_be16(s: Seq<u8>) -> u16 {
    ((s[0] as u16) << 8u16) | (s[1] as u16)
}

/// Big-endian bytes of a 32-bit word.
pub open spec fn be32(x: u32) -> Seq<u8> {
    seq![(x >> 24u32) as u8, (x >> 16u32) as u8, (x >> 8u32) as u8, x as u8]
}

/// The 32-bit word of four big-endian bytes.
pub open spec fn from_be32(s: Seq<u8>) -> u32 {
    ((s[0] as u32) << 24u32) | ((s[1] as u32) << 16u32) | ((s[2] as u32) << 8u32) | (s[3] as u32)
}

/// Big-endian bytes of a 64-bit word.
pub open spec fn be64(x: u64) -> Seq<u8> {
    seq![
        (x >> 56u64) as u8,
        (x >> 48u64) as u8,
        (x >> 40u64) as u8,
        (x >> 32u64) as u8,
        (x >> 24u64) as u8,
        (x >> 16u64) as u8,
        (x >> 8u64) as u8,
        x as u8,
    ]
}

/// The 64-bit word of eight big-endian bytes.
pub open spec fn from_be64(s: Seq<u8>) -> u64 {
    ((s[0] as u64) << 56u64) | ((s[1] as u64) << 48u64) | ((s[2] as u64) << 40u64) | ((
    s[3] as u64) << 32u64) | ((s[4] as u64) << 24u64) | ((s[5] as u64) << 16u64) | ((
    s[6] as u64) << 8u64) | (s[7] as u64)
}

/// The first `n` bytes of `s` as a fixed-width field and its width, if there
/// are that many.
pub open spec fn take_fixed(s: Seq<u8>, n: nat) -> Option<(Seq<u8>, nat)> {
    if s.len() >= n {
        Some((s.take(n as int), n))
    } else {
        None
    }
}

/// A big-endian 16-bit word at the start of `s`.
pub open spec fn fixed_u16(s: Seq<u8>) -> Option<(u16, nat)> {
    match take_fixed(s, 2) {
        Some((b, n)) => Some((from_be16(b), n)),
        None => None,
    }
}

/// A big-endian 32-bit word at the start of `s`.
pub open spec fn fixed_u32(s: Seq<u8>) -> Option<(u32, nat)> {
    match take_fixed(s, 4) {
        Some((b, n)) => Some((from_be32(b), n)),
        None => None,
    }
}

/// A big-endian 64-bit word at the start of `s`.
pub open spec fn fixed_u64(s: Seq<u8>) -> Option<(u64, nat)> {
    match take_fixed(s, 8) {
        Some((b, n)) => Some((from_be64(b), n)),
        None => None,
    }
}

proof fn lemma_be16(x: u16)
    ensures
        from_be16(be16(x)) == x,
{
    let a = (x >> 8u16) as u8;
    let b = x as u8;
    assert((((a as u16) << 8u16) | (b as u16)) == x) by (bit_vector)
        requires
            a == (x >> 8u16) as u8,
            b == x as u8,
    ;
}

pub(crate) proof fn lemma_be32(x: u32)
    ensures
        from_be32(be32(x)) == x,
{
    let a = (x >> 24u32) as u8;
    let b = (x >> 16u32) as u8;
    let c = (x >> 8u32) as u8;
    let d = x as u8;
    assert((((a as u32) << 24u32) | ((b as u32) << 16u32) | ((c as u32) << 8u32) | (d as u32))
        == x) by (bit_vector)
        requires
            a == (x >> 24u32) as u8,
            b == (x >> 16u32) as u8,
            c == (x >> 8u32) as u8,
            d == x as u8,
    ;
}

proof fn lemma_be64(x: u64)
    ensures
        from_be64(be64(x)) == x,
{
    let b0 = (x >> 56u64) as u8;
    let b1 = (x >> 48u64) as u8;
    let b2 = (x >> 40u64) as u8;
    let b3 = (x >> 32u64) as u8;
    let b4 = (x >> 24u64) as u8;
    let b5 = (x >> 16u64) as u8;
    let b6 = (x >> 8u64) as u8;
    let b7 = x as u8;
    assert((((b0 as u64) << 56u64) | ((b1 as u64) << 48u64) | ((b2 as u64) << 40u64) | ((
    b3 as u64) << 32u64) | ((b4 as u64) << 24u64) | ((b5 as u64) << 16u64) | ((b6 as u64)
        << 8u64) | (b7 as u64)) == x) by (bit_vector)
        requires
            b0 == (x >> 56u64) as u8,
            b1 == (x >> 48u64) as u8,
            b2 == (x >> 40u64) as u8,
            b3 == (x >> 32u64) as u8,
            b4 == (x >> 24u64) as u8,
            b5 == (x >> 16u64) as u8,
            b6 == (x >> 8u64) as u8,
            b7 == x as u8,
    ;
}

proof fn lemma_take_fixed(e: Seq<u8>, rest: Seq<u8>)
    ensures
        take_fixed(e + rest, e.len()) == Some((e, e.len())),
{
    assert((e + rest).take(e.len() as int) =~= e);
}

/// Appends every byte of `bytes` to `buf`.
pub fn put_slice(buf: &mut Vec<u8>, bytes: &[u8])
    ensures
        final(buf)@ == old(buf)@ + bytes@,
{
    let mut i: usize = 0;
    while i < bytes.len()
        invariant
            i <= bytes@.len(),
            buf@ == old(buf)@ + bytes@.take(i as int),
        decreases bytes@.len() - i,
    {
        buf.push(bytes[i]);
        i = i + 1;
        assert(buf@ =~= old(buf)@ + bytes@.take(i as int));
    }
    assert(bytes@.take(i as int) =~= bytes@);
}

/// Copies `n` bytes of `buf` starting at `pos`, or fails when fewer remain.
pub fn get_bytes(buf: &[u8], pos: usize, n: usize) -> (r: Result<(Vec<u8>, usize), DecodeError>)
    requires
        pos <= buf@.len(),
    ensures
        decoded(r, take_fixed(buf@.skip(pos as int), n as nat), pos, buf@.len()),
{
    if n > buf.len() - pos {
        return Err(DecodeError);
    }
    let mut out: Vec<u8> = Vec::new();
    let mut i: usize = 0;
    while i < n
        invariant
            i <= n,
            pos + n <= buf.len(),
            out@ == buf@.subrange(pos as int, pos + i),
        decreases n - i,
    {
        out.push(buf[pos + i]);
        i = i + 1;
        assert(out@ =~= buf@.subrange(pos as int, pos + i));
    }
    assert(out.deep_view() =~= out@);
    assert(buf@.skip(pos as int).take(n as int) =~= out@);
    Ok((out, pos + n))
}

// ---------------------------------------------------------------------------
// Booleans and fixed-width integers
// ---------------------------------------------------------------------------

/// A boolean value: one byte, zero for false and anything else for true.
#[derive(Debug, Copy, Clone, Default)]
pub struct Boolean;

impl Codec<bool> for Boolean {
    open spec fn valid(&self, v: bool) -> bool {
        true
    }

    open spec fn spec_encode(&self, v: bool) -> Seq<u8> {
        seq![if v { 1u8 } else { 0u8 }]
    }

    open spec fn spec_decode(&self, s: Seq<u8>) -> Option<(bool, nat)> {
        if s.len() >= 1 {
            Some((s[0] != 0, 1))
        } else {
            None
        }
    }

    proof fn lemma_decode_encode(&self, v: bool, rest: Seq<u8>) {
    }

    fn encode(&self, buf: &mut Vec<u8>, value: &bool) -> (r: Result<(), EncodeError>) {
        buf.push(if *value { 1 } else { 0 });
        assert(buf@ =~= old(buf)@ + self.spec_encode(*value));
        Ok(())
    }

    fn compute_size(&self, value: &bool) -> (r: Result<usize, EncodeError>) {
        Ok(1)
    }

    fn decode(&self, buf: &[u8], pos: usize) -> (r: Result<(bool, usize), DecodeError>) {
        if pos >= buf.len() {
            return Err(DecodeError);
        }
        Ok((buf[pos] != 0, pos + 1))
    }
}

/// A signed 8-bit integer.
#[derive(Debug, Copy, Clone, Default)]
pub struct Int8;

impl Codec<i8> for Int8 {
    open spec fn valid(&self, v: i8) -> bool {
        true
    }

    open spec fn spec_encode(&self, v: i8) -> Seq<u8> {
        seq![v as u8]
    }

    open spec fn spec_decode(&self, s: Seq<u8>) -> Option<(i8, nat)> {
        if s.len() >= 1 {
            Some((s[0] as i8, 1))
        } else {
            None
        }
    }

    proof fn lemma_decode_encode(&self, v: i8, rest: Seq<u8>) {
        let s = self.spec_encode(v) + rest;
        assert(s[0] == v as u8);
        assert(((v as u8) as i8) == v) by (bit_vector);
    }

    fn encode(&self, buf: &mut Vec<u8>, value: &i8) -> (r: Result<(), EncodeError>) {
        buf.push(*value as u8);
        assert(buf@ =~= old(buf)@ + self.spec_encode(*value));
        Ok(())
    }

    fn compute_size(&self, value: &i8) -> (r: Result<usize, EncodeError>) {
        Ok(1)
    }

    fn decode(&self, buf: &[u8], pos: usize) -> (r: Result<(i8, usize), DecodeError>) {
        if pos >= buf.len() {
            return Err(DecodeError);
        }
        Ok((buf[pos] as i8, pos + 1))
    }
}

/// Appends the two big-endian bytes of `x`.
fn put_u16(buf: &mut Vec<u8>, x: u16)
    ensures
        final(buf)@ == old(buf)@ + be16(x),
{
    buf.push((x >> 8) as u8);
    buf.push(x as u8);
    assert(buf@ =~= old(buf)@ + be16(x));
}

/// Reads two big-endian bytes at `pos`.
fn get_u16(buf: &[u8], pos: usize) -> (r: Result<(u16, usize), DecodeError>)
    requires
        pos <= buf@.len(),
    ensures
        decoded(r, fixed_u16(buf@.skip(pos as int)), pos, buf@.len()),
{
    if buf.len() - pos < 2 {
        return Err(DecodeError);
    }
    let x = ((buf[pos] as u16) << 8) | (buf[pos + 1] as u16);
    assert(buf@.skip(pos as int).take(2)[0] == buf@[pos as int]);
    assert(buf@.skip(pos as int).take(2)[1] == buf@[pos + 1]);
    Ok((x, pos + 2))
}

/// Appends the four big-endian bytes of `x`.
pub fn put_u32(buf: &mut Vec<u8>, x: u32)
    ensures
        final(buf)@ == old(buf)@ + be32(x),
{
    buf.push((x >> 24) as u8);
    buf.push((x >> 16) as u8);
    buf.push((x >> 8) as u8);
    buf.push(x as u8);
    assert(buf@ =~= old(buf)@ + be32(x));
}

/// Reads four big-endian bytes at `pos`.
fn get_u32(buf: &[u8], pos: usize) -> (r: Result<(u32, usize), DecodeError>)
    requires
        pos <= buf@.len(),
    ensures
        decoded(r, fixed_u32(buf@.skip(pos as int)), pos, buf@.len()),
{
    if buf.len() - pos < 4 {
        return Err(DecodeError);
    }
    let x = ((buf[pos] as u32) << 24) | ((buf[pos + 1] as u32) << 16) | ((buf[pos + 2] as u32)
        << 8) | (buf[pos + 3] as u32);
    let ghost t = buf@.skip(pos as int).take(4);
    assert(t[0] == buf@[pos as int] && t[1] == buf@[pos + 1] && t[2] == buf@[pos + 2] && t[3]
        == buf@[pos + 3]);
    Ok((x, pos + 4))
}

/// Appends the eight big-endian bytes of `x`.
fn put_u64(buf: &mut Vec<u8>, x: u64)
    ensures
        final(buf)@ == old(buf)@ + be64(x),
{
    buf.push((x >> 56) as u8);
    buf.push((x >> 48) as u8);
    buf.push((x >> 40) as u8);
    buf.push((x >> 32) as u8);
    buf.push((x >> 24) as u8);
    buf.push((x >> 16) as u8);
    buf.push((x >> 8) as u8);
    buf.push(x as u8);
    assert(buf@ =~= old(buf)@ + be64(x));
}

/// Reads eight big-endian bytes at `pos`.
fn get_u64(buf: &[u8], pos: usize) -> (r: Result<(u64, usize), DecodeError>)
    requires
        pos <= buf@.len(),
    ensures
        decoded(r, fixed_u64(buf@.skip(pos as int)), pos, buf@.len()),
{
    if buf.len() - pos < 8 {
        return Err(DecodeError);
    }
    let x = ((buf[pos] as u64) << 56) | ((buf[pos + 1] as u64) << 48) | ((buf[pos + 2] as u64)
        << 40) | ((buf[pos + 3] as u64) << 32) | ((buf[pos + 4] as u64) << 24) | ((buf[pos
        + 5] as u64) << 16) | ((buf[pos + 6] as u64) << 8) | (buf[pos + 7] as u64);
    let ghost t = buf@.skip(pos as int).take(8);
    assert(t[0] == buf@[pos as int] && t[1] == buf@[pos + 1] && t[2] == buf@[pos + 2] && t[3]
        == buf@[pos + 3]);
    assert(t[4] == buf@[pos + 4] && t[5] == buf@[pos + 5] && t[6] == buf@[pos + 6] && t[7]
        == buf@[pos + 7]);
    Ok((x, pos + 8))
}

/// A signed 16-bit integer, big-endian.
#[derive(Debug, Copy, Clone, Default)]
pub struct Int16;

impl Codec<i16> for Int16 {
    open spec fn valid(&self, v: i16) -> bool {
        true
    }

    open spec fn spec_encode(&self, v: i16) -> Seq<u8> {
        be16(v as u16)
    }

    open spec fn spec_decode(&self, s: Seq<u8>) -> Option<(i16, nat)> {
        match fixed_u16(s) {
            Some((x, n)) => Some((x as i16, n)),
            None => None,
        }
    }

    proof fn lemma_decode_encode(&self, v: i16, rest: Seq<u8>) {
        lemma_take_fixed(be16(v as u16), rest);
        lemma_be16(v as u16);
        assert(((v as u16) as i16) == v) by (bit_vector);
    }

    fn encode(&self, buf: &mut Vec<u8>, value: &i16) -> (r: Result<(), EncodeError>) {
        put_u16(buf, *value as u16);
        Ok(())
    }

    fn compute_size(&self, value: &i16) -> (r: Result<usize, EncodeError>) {
        Ok(2)
    }

    fn decode(&self, buf: &[u8], pos: usize) -> (r: Result<(i16, usize), DecodeError>) {
        let (x, p) = get_u16(buf, pos)?;
        Ok((x as i16, p))
    }
}

/// An unsigned 16-bit integer, big-endian.
#[derive(Debug, Copy, Clone, Default)]
pub struct UInt16;

impl Codec<u16> for UInt16 {
    open spec fn valid(&self, v: u16) -> bool {
        true
    }

    open spec fn spec_encode(&self, v: u16) -> Seq<u8> {
        be16(v)
    }

    open spec fn spec_decode(&self, s: Seq<u8>) -> Option<(u16, nat)> {
        fixed_u16(s)
    }

    proof fn lemma_decode_encode(&self, v: u16, rest: Seq<u8>) {
        lemma_take_fixed(be16(v), rest);
        lemma_be16(v);
    }

    fn encode(&self, buf: &mut Vec<u8>, value: &u16) -> (r: Result<(), EncodeError>) {
        put_u16(buf, *value);
        Ok(())
    }

    fn compute_size(&self, value: &u16) -> (r: Result<usize, EncodeError>) {
        Ok(2)
    }

    fn decode(&self, buf: &[u8], pos: usize) -> (r: Result<(u16, usize), DecodeError>) {
        get_u16(buf, pos)
    }
}

/// A signed 32-bit integer, big-endian.
#[derive(Debug, Copy, Clone, Default)]
pub struct Int32;

impl Codec<i32> for Int32 {
    open spec fn valid(&self, v: i32) -> bool {
        true
    }

    open spec fn spec_encode(&self, v: i32) -> Seq<u8> {
        be32(v as u32)
    }

    open spec fn spec_decode(&self, s: Seq<u8>) -> Option<(i32, nat)> {
        match fixed_u32(s) {
            Some((x, n)) => Some((x as i32, n)),
            None => None,
        }
    }

    proof fn lemma_decode_encode(&self, v: i32, rest: Seq<u8>) {
        lemma_take_fixed(be32(v as u32), rest);
        lemma_be32(v as u32);
        assert(((v as u32) as i32) == v) by (bit_vector);
    }

    fn encode(&self, buf: &mut Vec<u8>, value: &i32) -> (r: Result<(), EncodeError>) {
        put_u32(buf, *value as u32);
        Ok(())
    }

    fn compute_size(&self, value: &i32) -> (r: Result<usize, EncodeError>) {
        Ok(4)
    }

    fn decode(&self, buf: &[u8], pos: usize) -> (r: Result<(i32, usize), DecodeError>) {
        let (x, p) = get_u32(buf, pos)?;
        Ok((x as i32, p))
    }
}

/// An unsigned 32-bit integer, big-endian.
#[derive(Debug, Copy, Clone, Default)]
pub struct UInt32;

impl Codec<u32> for UInt32 {
    open spec fn valid(&self, v: u32) -> bool {
        true
    }

    open spec fn spec_encode(&self, v: u32) -> Seq<u8> {
        be32(v)
    }

    open spec fn spec_decode(&self, s: Seq<u8>) -> Option<(u32, nat)> {
        fixed_u32(s)
    }

    proof fn lemma_decode_encode(&self, v: u32, rest: Seq<u8>) {
        lemma_take_fixed(be32(v), rest);
        lemma_be32(v);
    }

    fn encode(&self, buf: &mut Vec<u8>, value: &u32) -> (r: Result<(), EncodeError>) {
        put_u32(buf, *value);
        Ok(())
    }

    fn compute_size(&self, value: &u32) -> (r: Result<usize, EncodeError>) {
        Ok(4)
    }

    fn decode(&self, buf: &[u8], pos: usize) -> (r: Result<(u32, usize), DecodeError>) {
        get_u32(buf, pos)
    }
}

/// A signed 64-bit integer, big-endian.
#[derive(Debug, Copy, Clone, Default)]
pub struct Int64;

impl Codec<i64> for Int64 {
    open spec fn valid(&self, v: i64) -> bool {
        true
    }

    open spec fn spec_encode(&self, v: i64) -> Seq<u8> {
        be64(v as u64)
    }

    open spec fn spec_decode(&self, s: Seq<u8>) -> Option<(i64, nat)> {
        match fixed_u64(s) {
            Some((x, n)) => Some((x as i64, n)),
            None => None,
        }
    }

    proof fn lemma_decode_encode(&self, v: i64, rest: Seq<u8>) {
        lemma_take_fixed(be64(v as u64), rest);
        lemma_be64(v as u64);
        assert(((v as u64) as i64) == v) by (bit_vector);
    }

    fn encode(&self, buf: &mut Vec<u8>, value: &i64) -> (r: Result<(), EncodeError>) {
        put_u64(buf, *value as u64);
        Ok(())
    }

    fn compute_size(&self, value: &i64) -> (r: Result<usize, EncodeError>) {
        Ok(8)
    }

    fn decode(&self, buf: &[u8], pos: usize) -> (r: Result<(i64, usize), DecodeError>) {
        let (x, p) = get_u64(buf, pos)?;
        Ok((x as i64, p))
    }
}

// ---------------------------------------------------------------------------
// Variable-length integers
// ---------------------------------------------------------------------------

/// The varint bytes of `v`: seven bits per byte, least significant group
/// first, the high bit set on every byte but the last.
pub open spec fn uvarint_bytes(v: nat) -> Seq<u8>
    decreases v,
{
    if v < 128 {
        seq![v as u8]
    } else {
        seq![(v % 128 + 128) as u8] + uvarint_bytes(v / 128)
    }
}

/// `128` to the power `i`: the weight of the `i`-th seven-bit group.
pub open spec fn pow128(i: nat) -> nat
    decreases i,
{
    if i == 0 {
        1
    } else {
        128 * pow128((i - 1) as nat)
    }
}

/// Reads seven-bit groups of `s` from byte `i` on, `acc` being the value of
/// the groups before it. Reading stops after a byte below 128 or after byte
/// `max - 1`, whichever comes first; the result is the weighted sum of all
/// groups read and the number of bytes read.
pub open spec fn uvarint_scan(s: Seq<u8>, i: nat, max: nat, acc: nat) -> Option<(nat, nat)>
    decreases max - i,
{
    if i >= max || i >= s.len() {
        None
    } else {
        let next = acc + (s[i as int] % 128) as nat * pow128(i);
        if s[i as int] < 128 || i + 1 >= max {
            Some((next, i + 1))
        } else {
            uvarint_scan(s, i + 1, max, next)
        }
    }
}

/// Zig-zag form of a signed 32-bit integer: `(x << 1) ^ (x >> 31)`.
pub open spec fn zigzag32(x: i32) -> u32 {
    if x >= 0 {
        (2 * x) as u32
    } else {
        (-2 * x - 1) as u32
    }
}

/// Inverse of `zigzag32`: `(u >> 1) ^ -(u & 1)`.
pub open spec fn unzigzag32(u: u32) -> i32 {
    if u % 2 == 0 {
        (u / 2) as i32
    } else {
        (-((u / 2) as int) - 1) as i32
    }
}

/// Zig-zag form of a signed 64-bit integer: `(x << 1) ^ (x >> 63)`.
pub open spec fn zigzag64(x: i64) -> u64 {
    if x >= 0 {
        (2 * x) as u64
    } else {
        (-2 * x - 1) as u64
    }
}

/// Inverse of `zigzag64`: `(u >> 1) ^ -(u & 1)`.
pub open spec fn unzigzag64(u: u64) -> i64 {
    if u % 2 == 0 {
        (u / 2) as i64
    } else {
        (-((u / 2) as int) - 1) as i64
    }
}

proof fn lemma_pow128_values()
    ensures
        pow128(1) == 128,
        pow128(5) == 0x8_0000_0000,
        pow128(9) == 0x8000_0000_0000_0000,
        pow128(10) == 0x40_0000_0000_0000_0000,
{
    assert(pow128(0) == 1);
    assert(pow128(1) == 128);
    assert(pow128(2) == 0x4000);
    assert(pow128(3) == 0x20_0000);
    assert(pow128(4) == 0x1000_0000);
    assert(pow128(5) == 0x8_0000_0000);
    assert(pow128(6) == 0x400_0000_0000);
    assert(pow128(7) == 0x2_0000_0000_0000);
    assert(pow128(8) == 0x100_0000_0000_0000);
    assert(pow128(9) == 0x8000_0000_0000_0000);
    assert(pow128(10) == 0x40_0000_0000_0000_0000);
}

proof fn lemma_pow128_mono(i: nat, j: nat)
    requires
        i <= j,
    ensures
        pow128(i) <= pow128(j),
    decreases j - i,
{
    if i < j {
        lemma_pow128_mono(i, (j - 1) as nat);
    }
}

/// Scanning the varint bytes of `w` placed at byte `i` adds `w`, weighted by
/// its position, to the accumulated value.
proof fn lemma_uvarint_scan(s: Seq<u8>, i: nat, max: nat, acc: nat, w: nat)
    requires
        i < max,
        w < pow128((max - i) as nat),
        i + uvarint_bytes(w).len() <= s.len(),
        s.subrange(i as int, (i + uvarint_bytes(w).len()) as int) == uvarint_bytes(w),
    ensures
        uvarint_scan(s, i, max, acc) == Some((acc + w * pow128(i), i + uvarint_bytes(w).len())),
    decreases w,
{
    let e = uvarint_bytes(w);
    assert(s[i as int] == s.subrange(i as int, (i + e.len()) as int)[0]);
    let p = pow128(i);
    if w < 128 {
        assert(s[i as int] == w as u8);
    } else {
        let q = w / 128;
        assert(s[i as int] == (w % 128 + 128) as u8);
        assert(s[i as int] % 128 == w % 128);
        if max - i < 2 {
            assert(pow128((max - i) as nat) == 128 * pow128(0));
            assert(false);
        }
        let rest = uvarint_bytes(q);
        assert(e == seq![(w % 128 + 128) as u8] + rest);
        assert(s.subrange((i + 1) as int, (i + 1 + rest.len()) as int) =~= e.subrange(1, e.len() as int));
        assert(e.subrange(1, e.len() as int) =~= rest);
        let m = (max - i - 1) as nat;
        assert(pow128((max - i) as nat) == 128 * pow128(m));
        assert(q < pow128(m)) by (nonlinear_arith)
            requires
                w < 128 * pow128(m),
                q == w / 128,
        ;
        let next = acc + (w % 128) * p;
        lemma_uvarint_scan(s, i + 1, max, next, q);
        assert(pow128(i + 1) == 128 * p);
        assert(next + q * (128 * p) == acc + w * p) by (nonlinear_arith)
            requires
                next == acc + (w % 128) * p,
                q == w / 128,
        ;
    }
}

/// Appends the varint bytes of `v`.
pub fn put_uvarint(buf: &mut Vec<u8>, v: u64)
    ensures
        final(buf)@ == old(buf)@ + uvarint_bytes(v as nat),
{
    let mut value = v;
    while value >= 128
        invariant
            old(buf)@ + uvarint_bytes(v as nat) == buf@ + uvarint_bytes(value as nat),
        decreases value,
    {
        let ghost before = buf@;
        let b = (value % 128 + 128) as u8;
        buf.push(b);
        value = value / 128;
        assert(before + uvarint_bytes((value * 128 + b % 128) as nat) =~= buf@ + uvarint_bytes(
            value as nat,
        ));
    }
    let ghost before = buf@;
    buf.push(value as u8);
    assert(buf@ =~= before + uvarint_bytes(value as nat));
}

/// The number of varint bytes of `v`.
pub fn uvarint_size(v: u64) -> (n: usize)
    ensures
        n == uvarint_bytes(v as nat).len(),
        1 <= n <= 10,
{
    let mut value = v;
    let mut n: usize = 1;
    assert(pow128((n - 1) as nat) == 1);
    assert(value as nat * pow128((n - 1) as nat) == v as nat);
    while value >= 128
        invariant
            n + uvarint_bytes(value as nat).len() == uvarint_bytes(v as nat).len() + 1,
            1 <= n,
            value as nat * pow128((n - 1) as nat) <= v,
            n <= 10,
        decreases value,
    {
        proof {
            lemma_pow128_values();
            if n >= 10 {
                lemma_pow128_mono(9, (n - 1) as nat);
                assert(value as nat * pow128((n - 1) as nat) >= 128 * 0x8000_0000_0000_0000)
                    by (nonlinear_arith)
                    requires
                        value >= 128,
                        pow128((n - 1) as nat) >= 0x8000_0000_0000_0000,
                ;
            }
            assert((value / 128) as nat * pow128(n as nat) <= v) by (nonlinear_arith)
                requires
                    pow128(n as nat) == 128 * pow128((n - 1) as nat),
                    value as nat * pow128((n - 1) as nat) <= v,
            ;
        }
        value = value / 128;
        n = n + 1;
    }
    n
}

/// Reads up to `max` varint bytes at `pos` and returns the weighted sum of
/// their seven-bit groups, without reducing it to any width.
fn read_uvarint(buf: &[u8], pos: usize, max: usize) -> (r: Result<(u128, usize), DecodeError>)
    requires
        pos <= buf@.len(),
        1 <= max <= 10,
    ensures
        match uvarint_scan(buf@.skip(pos as int), 0, max as nat, 0) {
            Some((v, n)) => r matches Ok((x, p)) && x == v && p == pos + n && p <= buf@.len(),
            None => r is Err,
        },
{
    let ghost s = buf@.skip(pos as int);
    let mut acc: u128 = 0;
    let mut mult: u128 = 1;
    let mut i: usize = 0;
    proof {
        lemma_pow128_values();
    }
    loop
        invariant
            i < max,
            max <= 10,
            pos <= buf@.len(),
            s == buf@.skip(pos as int),
            mult == pow128(i as nat),
            acc < mult,
            uvarint_scan(s, 0, max as nat, 0) == uvarint_scan(s, i as nat, max as nat, acc as nat),
        decreases max - i,
    {
        proof {
            lemma_pow128_values();
            lemma_pow128_mono(i as nat, 9);
        }
        if i >= buf.len() - pos {
            return Err(DecodeError);
        }
        let b = buf[pos + i];
        assert(s[i as int] == b);
        assert(acc + (b % 128) as u128 * mult < 128 * mult) by (nonlinear_arith)
            requires
                acc < mult,
                b % 128 < 128,
        ;
        acc = acc + (b % 128) as u128 * mult;
        if b < 128 || i + 1 >= max {
            return Ok((acc, pos + i + 1));
        }
        mult = mult * 128;
        i = i + 1;
    }
}

/// An unsigned 32-bit integer in varint form (one to five bytes).
#[derive(Debug, Copy, Clone, Default)]
pub struct UnsignedVarInt;

impl Codec<u32> for UnsignedVarInt {
    open spec fn valid(&self, v: u32) -> bool {
        true
    }

    open spec fn spec_encode(&self, v: u32) -> Seq<u8> {
        uvarint_bytes(v as nat)
    }

    open spec fn spec_decode(&self, s: Seq<u8>) -> Option<(u32, nat)> {
        match uvarint_scan(s, 0, 5, 0) {
            Some((v, n)) => Some(((v % 0x1_0000_0000) as u32, n)),
            None => None,
        }
    }

    proof fn lemma_decode_encode(&self, v: u32, rest: Seq<u8>) {
        let e = uvarint_bytes(v as nat);
        lemma_pow128_values();
        assert((e + rest).subrange(0, e.len() as int) =~= e);
        lemma_uvarint_scan(e + rest, 0, 5, 0, v as nat);
        assert(pow128(0) == 1);
        assert(v as nat * 1 == v as nat);
        assert((v as nat % 0x1_0000_0000) as nat == v as nat);
    }

    fn encode(&self, buf: &mut Vec<u8>, value: &u32) -> (r: Result<(), EncodeError>) {
        put_uvarint(buf, *value as u64);
        Ok(())
    }

    fn compute_size(&self, value: &u32) -> (r: Result<usize, EncodeError>) {
        Ok(uvarint_size(*value as u64))
    }

    fn decode(&self, buf: &[u8], pos: usize) -> (r: Result<(u32, usize), DecodeError>) {
        let (x, p) = read_uvarint(buf, pos, 5)?;
        Ok(((x % 0x1_0000_0000) as u32, p))
    }
}

/// An unsigned 64-bit integer in varint form (one to ten bytes).
#[derive(Debug, Copy, Clone, Default)]
pub struct UnsignedVarLong;

impl Codec<u64> for UnsignedVarLong {
    open spec fn valid(&self, v: u64) -> bool {
        true
    }

    open spec fn spec_encode(&self, v: u64) -> Seq<u8> {
        uvarint_bytes(v as nat)
    }

    open spec fn spec_decode(&self, s: Seq<u8>) -> Option<(u64, nat)> {
        match uvarint_scan(s, 0, 10, 0) {
            Some((v, n)) => Some(((v % 0x1_0000_0000_0000_0000) as u64, n)),
            None => None,
        }
    }

    proof fn lemma_decode_encode(&self, v: u64, rest: Seq<u8>) {
        let e = uvarint_bytes(v as nat);
        lemma_pow128_values();
        assert((e + rest).subrange(0, e.len() as int) =~= e);
        lemma_uvarint_scan(e + rest, 0, 10, 0, v as nat);
        assert(pow128(0) == 1);
        assert(v as nat * 1 == v as nat);
        assert((v as nat % 0x1_0000_0000_0000_0000) as nat == v as nat);
    }

    fn encode(&self, buf: &mut Vec<u8>, value: &u64) -> (r: Result<(), EncodeError>) {
        put_uvarint(buf, *value);
        Ok(())
    }

    fn compute_size(&self, value: &u64) -> (r: Result<usize, EncodeError>) {
        Ok(uvarint_size(*value))
    }

    fn decode(&self, buf: &[u8], pos: usize) -> (r: Result<(u64, usize), DecodeError>) {
        let (x, p) = read_uvarint(buf, pos, 10)?;
        Ok(((x % 0x1_0000_0000_0000_0000) as u64, p))
    }
}

/// A signed 32-bit integer in zig-zag varint form.
#[derive(Debug, Copy, Clone, Default)]
pub struct VarInt;

impl Codec<i32> for VarInt {
    open spec fn valid(&self, v: i32) -> bool {
        true
    }

    open spec fn spec_encode(&self, v: i32) -> Seq<u8> {
        uvarint_bytes(zigzag32(v) as nat)
    }

    open spec fn spec_decode(&self, s: Seq<u8>) -> Option<(i32, nat)> {
        match UnsignedVarInt.spec_decode(s) {
            Some((u, n)) => Some((unzigzag32(u), n)),
            None => None,
        }
    }

    proof fn lemma_decode_encode(&self, v: i32, rest: Seq<u8>) {
        UnsignedVarInt.lemma_decode_encode(zigzag32(v), rest);
    }

    fn encode(&self, buf: &mut Vec<u8>, value: &i32) -> (r: Result<(), EncodeError>) {
        let v = *value;
        let zigzag: u32 = if v >= 0 {
            (v as u32) * 2
        } else {
            ((-(v + 1)) as u32) * 2 + 1
        };
        UnsignedVarInt.encode(buf, &zigzag)
    }

    fn compute_size(&self, value: &i32) -> (r: Result<usize, EncodeError>) {
        let v = *value;
        let zigzag: u32 = if v >= 0 {
            (v as u32) * 2
        } else {
            ((-(v + 1)) as u32) * 2 + 1
        };
        UnsignedVarInt.compute_size(&zigzag)
    }

    fn decode(&self, buf: &[u8], pos: usize) -> (r: Result<(i32, usize), DecodeError>) {
        let (u, p) = UnsignedVarInt.decode(buf, pos)?;
        let v: i32 = if u % 2 == 0 {
            (u / 2) as i32
        } else {
            -((u / 2) as i32) - 1
        };
        Ok((v, p))
    }
}

/// A signed 64-bit integer in zig-zag varint form.
#[derive(Debug, Copy, Clone, Default)]
pub struct VarLong;

impl Codec<i64> for VarLong {
    open spec fn valid(&self, v: i64) -> bool {
        true
    }

    open spec fn spec_encode(&self, v: i64) -> Seq<u8> {
        uvarint_bytes(zigzag64(v) as nat)
    }

    open spec fn spec_decode(&self, s: Seq<u8>) -> Option<(i64, nat)> {
        match UnsignedVarLong.spec_decode(s) {
            Some((u, n)) => Some((unzigzag64(u), n)),
            None => None,
        }
    }

    proof fn lemma_decode_encode(&self, v: i64, rest: Seq<u8>) {
        UnsignedVarLong.lemma_decode_encode(zigzag64(v), rest);
    }

    fn encode(&self, buf: &mut Vec<u8>, value: &i64) -> (r: Result<(), EncodeError>) {
        let v = *value;
        let zigzag: u64 = if v >= 0 {
            (v as u64) * 2
        } else {
            ((-(v + 1)) as u64) * 2 + 1
        };
        UnsignedVarLong.encode(buf, &zigzag)
    }

    fn compute_size(&self, value: &i64) -> (r: Result<usize, EncodeError>) {
        let v = *value;
        let zigzag: u64 = if v >= 0 {
            (v as u64) * 2
        } else {
            ((-(v + 1)) as u64) * 2 + 1
        };
        UnsignedVarLong.compute_size(&zigzag)
    }

    fn decode(&self, buf: &[u8], pos: usize) -> (r: Result<(i64, usize), DecodeError>) {
        let (u, p) = UnsignedVarLong.decode(buf, pos)?;
        let v: i64 = if u % 2 == 0 {
            (u / 2) as i64
        } else {
            -((u / 2) as i64) - 1
        };
        Ok((v, p))
    }
}

/// A UUID: its sixteen bytes, most significant first, with no length prefix.
#[derive(Debug, Copy, Clone, Default)]
pub struct Uuid;

impl Codec<UuidValue> for Uuid {
    open spec fn valid(&self, v: u128) -> bool {
        true
    }

    open spec fn spec_encode(&self, v: u128) -> Seq<u8> {
        be64((v >> 64u128) as u64) + be64(v as u64)
    }

    open spec fn spec_decode(&self, s: Seq<u8>) -> Option<(u128, nat)> {
        match fixed_u64(s) {
            Some((hi, k)) => match fixed_u64(s.skip(k as int)) {
                Some((lo, m)) => Some((((hi as u128) << 64u128) | (lo as u128), k + m)),
                None => None,
            },
            None => None,
        }
    }

    proof fn lemma_decode_encode(&self, v: u128, rest: Seq<u8>) {
        let hi = (v >> 64u128) as u64;
        let lo = v as u64;
        let a = be64(hi);
        let b = be64(lo);
        assert(a + b + rest =~= a + (b + rest));
        lemma_take_fixed(a, b + rest);
        lemma_be64(hi);
        lemma_skip_prefix(a, b + rest);
        lemma_take_fixed(b, rest);
        lemma_be64(lo);
        assert((((hi as u128) << 64u128) | (lo as u128)) == v) by (bit_vector)
            requires
                hi == (v >> 64u128) as u64,
                lo == v as u64,
        ;
    }

    fn encode(&self, buf: &mut Vec<u8>, value: &UuidValue) -> (r: Result<(), EncodeError>) {
        put_u64(buf, (value.0 >> 64) as u64);
        put_u64(buf, value.0 as u64);
        assert(buf@ =~= old(buf)@ + self.spec_encode(value.deep_view()));
        Ok(())
    }

    fn compute_size(&self, value: &UuidValue) -> (r: Result<usize, EncodeError>) {
        Ok(16)
    }

    fn decode(&self, buf: &[u8], pos: usize) -> (r: Result<(UuidValue, usize), DecodeError>) {
        let ghost s = buf@.skip(pos as int);
        let (hi, p) = get_u64(buf, pos)?;
        assert(buf@.skip(p as int) =~= s.skip(8));
        let (lo, q) = get_u64(buf, p)?;
        Ok((UuidValue(((hi as u128) << 64) | (lo as u128)), q))
    }
}

// ---------------------------------------------------------------------------
// Strings and byte arrays
// ---------------------------------------------------------------------------

/// Relies on `std::str::from_utf8`, which succeeds exactly on well-formed
/// UTF-8, to tell whether `bytes` is text.
#[verifier::external_body]
fn is_utf8(bytes: &[u8]) -> (r: bool)
    ensures
        r == valid_utf8(bytes@),
{
    std::str::from_utf8(bytes).is_ok()
}

/// Text held as its UTF-8 bytes.
#[derive(Debug, PartialEq, Eq, Hash)]
pub struct StrBytes {
    bytes: Vec<u8>,
}

impl StrBytes {
    #[verifier::type_invariant]
    spec fn well_formed(self) -> bool {
        valid_utf8(self.bytes@)
    }

    /// The text of `bytes`, or `None` when they are not UTF-8.
    pub fn from_utf8(bytes: Vec<u8>) -> (r: Option<StrBytes>)
        ensures
            r is Some <==> valid_utf8(bytes@),
            r matches Some(t) ==> t.deep_view() == bytes@,
    {
        if is_utf8(bytes.as_slice()) {
            Some(StrBytes { bytes })
        } else {
            None
        }
    }

    /// The text of a string slice.
    pub fn from_str(s: &str) -> (r: StrBytes)
        ensures
            r.deep_view() == s.spec_bytes(),
    {
        let bytes = slice_to_vec(s.as_bytes());
        proof {
            encode_utf8_valid_utf8(s@);
        }
        StrBytes { bytes }
    }

    /// The UTF-8 bytes of the text.
    pub fn as_bytes(&self) -> (r: &[u8])
        ensures
            r@ == self.deep_view(),
    {
        self.bytes.as_slice()
    }

    /// The UTF-8 bytes of the text are well-formed.
    pub fn lemma_well_formed(&self)
        ensures
            valid_utf8(self.deep_view()),
    {
        proof {
            use_type_invariant(self);
        }
    }
}

impl DeepView for StrBytes {
    type V = Seq<u8>;

    closed spec fn deep_view(&self) -> Seq<u8> {
        self.bytes@
    }
}

impl Clone for StrBytes {
    fn clone(&self) -> (r: StrBytes)
        ensures
            r.deep_view() == self.deep_view(),
    {
        proof {
            use_type_invariant(self);
        }
        let mut bytes: Vec<u8> = Vec::new();
        put_slice(&mut bytes, self.bytes.as_slice());
        assert(bytes@ =~= self.bytes@);
        StrBytes { bytes }
    }
}

impl Default for StrBytes {
    fn default() -> (r: StrBytes)
        ensures
            r.deep_view() == Seq::<u8>::empty(),
    {
        let bytes: Vec<u8> = Vec::new();
        assert(valid_utf8(bytes@));
        StrBytes { bytes }
    }
}

/// The first `n` bytes of `s` when they are well-formed UTF-8.
pub open spec fn text_payload(s: Seq<u8>, n: nat) -> Option<(Seq<u8>, nat)> {
    match take_fixed(s, n) {
        Some((b, k)) => if valid_utf8(b) {
            Some((b, k))
        } else {
            None
        },
        None => None,
    }
}

/// The payload of `n` bytes at the start of `s`, checked as text when `text`.
pub open spec fn payload(s: Seq<u8>, n: nat, text: bool) -> Option<(Seq<u8>, nat)> {
    if text {
        text_payload(s, n)
    } else {
        take_fixed(s, n)
    }
}

/// A nullable payload behind a signed 16-bit (`wide == false`) or 32-bit
/// length, `-1` meaning null and any other negative length being an error.
#[verifier::opaque]
pub open spec fn classic_decode(s: Seq<u8>, wide: bool, text: bool) -> Option<(Option<Seq<u8>>, nat)> {
    let len: Option<(int, nat)> = if wide {
        match <Int32 as Codec<i32>>::spec_decode(&Int32, s) {
            Some((n, k)) => Some((n as int, k)),
            None => None,
        }
    } else {
        match Int16.spec_decode(s) {
            Some((n, k)) => Some((n as int, k)),
            None => None,
        }
    };
    match len {
        Some((n, k)) => if n == -1 {
            Some((None, k))
        } else if n < 0 {
            None
        } else {
            match payload(s.skip(k as int), n as nat, text) {
                Some((b, m)) => Some((Some(b), k + m)),
                None => None,
            }
        },
        None => None,
    }
}

/// The encoding of a nullable payload behind a classic length.
#[verifier::opaque]
pub open spec fn classic_encode(v: Option<Seq<u8>>, wide: bool) -> Seq<u8> {
    let n: int = match v {
        Some(b) => b.len() as int,
        None => -1,
    };
    let prefix = if wide {
        be32(n as i32 as u32)
    } else {
        be16(n as i16 as u16)
    };
    match v {
        Some(b) => prefix + b,
        None => prefix,
    }
}

/// A nullable payload behind a varint holding its length plus one, zero
/// meaning null.
#[verifier::opaque]
pub open spec fn compact_decode(s: Seq<u8>, text: bool) -> Option<(Option<Seq<u8>>, nat)> {
    match UnsignedVarInt.spec_decode(s) {
        Some((n, k)) => if n == 0 {
            Some((None, k))
        } else {
            match payload(s.skip(k as int), (n - 1) as nat, text) {
                Some((b, m)) => Some((Some(b), k + m)),
                None => None,
            }
        },
        None => None,
    }
}

/// The encoding of a nullable payload behind a compact length.
#[verifier::opaque]
pub open spec fn compact_encode(v: Option<Seq<u8>>) -> Seq<u8> {
    match v {
        Some(b) => uvarint_bytes(b.len() + 1) + b,
        None => uvarint_bytes(0),
    }
}

/// The largest payload a classic length can describe.
pub open spec fn classic_max(wide: bool) -> nat {
    if wide {
        0x7fff_ffff
    } else {
        0x7fff
    }
}

/// Whether a nullable payload has a classic encoding.
#[verifier::opaque]
pub open spec fn classic_valid(v: Option<Seq<u8>>, wide: bool, text: bool) -> bool {
    match v {
        Some(b) => b.len() <= classic_max(wide) && (text ==> valid_utf8(b)),
        None => true,
    }
}

/// Whether a nullable payload has a compact encoding: its length plus one must
/// fit in 32 bits.
#[verifier::opaque]
pub open spec fn compact_valid(v: Option<Seq<u8>>, text: bool) -> bool {
    match v {
        Some(b) => b.len() < 0xffff_ffff && (text ==> valid_utf8(b)),
        None => true,
    }
}

/// Drops the null case of a nullable decoding.
pub open spec fn required(p: Option<(Option<Seq<u8>>, nat)>) -> Option<(Seq<u8>, nat)> {
    match p {
        Some((Some(b), k)) => Some((b, k)),
        _ => None,
    }
}

proof fn lemma_skip_prefix(a: Seq<u8>, b: Seq<u8>)
    ensures
        (a + b).skip(a.len() as int) == b,
{
    assert((a + b).skip(a.len() as int) =~= b);
}

proof fn lemma_payload(b: Seq<u8>, rest: Seq<u8>, text: bool)
    requires
        text ==> valid_utf8(b),
    ensures
        payload(b + rest, b.len(), text) == Some((b, b.len())),
{
    lemma_take_fixed(b, rest);
}

pub proof fn lemma_classic_round_trip(v: Option<Seq<u8>>, wide: bool, text: bool, rest: Seq<u8>)
    requires
        classic_valid(v, wide, text),
    ensures
        classic_decode(classic_encode(v, wide) + rest, wide, text) == Some(
            (v, classic_encode(v, wide).len()),
        ),
{
    reveal(classic_valid);
    reveal(classic_encode);
    reveal(classic_decode);
    let n: int = match v {
        Some(b) => b.len() as int,
        None => -1,
    };
    let body = match v {
        Some(b) => b,
        None => Seq::<u8>::empty(),
    };
    let e = classic_encode(v, wide);
    let s = e + rest;
    if wide {
        let prefix = be32(n as i32 as u32);
        assert(e =~= prefix + body);
        assert(s =~= prefix + (body + rest));
        <Int32 as Codec<i32>>::lemma_decode_encode(&Int32, n as i32, body + rest);
        lemma_skip_prefix(prefix, body + rest);
    } else {
        let prefix = be16(n as i16 as u16);
        assert(e =~= prefix + body);
        assert(s =~= prefix + (body + rest));
        Int16.lemma_decode_encode(n as i16, body + rest);
        lemma_skip_prefix(prefix, body + rest);
    }
    if let Some(b) = v {
        lemma_payload(b, rest, text);
    }
}

pub proof fn lemma_compact_round_trip(v: Option<Seq<u8>>, text: bool, rest: Seq<u8>)
    requires
        compact_valid(v, text),
    ensures
        compact_decode(compact_encode(v) + rest, text) == Some((v, compact_encode(v).len())),
{
    reveal(compact_valid);
    reveal(compact_encode);
    reveal(compact_decode);
    match v {
        Some(b) => {
            let prefix = uvarint_bytes(b.len() + 1);
            assert(compact_encode(v) + rest =~= prefix + (b + rest));
            UnsignedVarInt.lemma_decode_encode((b.len() + 1) as u32, b + rest);
            lemma_skip_prefix(prefix, b + rest);
            lemma_payload(b, rest, text);
        },
        None => {
            UnsignedVarInt.lemma_decode_encode(0, rest);
        },
    }
}

/// Copies a payload of `n` bytes at `pos`, checking it is UTF-8 when `text`.
fn get_payload(buf: &[u8], pos: usize, n: usize, text: bool) -> (r: Result<(Vec<u8>, usize), DecodeError>)
    requires
        pos <= buf@.len(),
    ensures
        decoded(r, payload(buf@.skip(pos as int), n as nat, text), pos, buf@.len()),
{
    let (b, p) = get_bytes(buf, pos, n)?;
    assert(b.deep_view() =~= b@);
    if text && !is_utf8(b.as_slice()) {
        return Err(DecodeError);
    }
    Ok((b, p))
}

/// Writes a nullable payload behind a classic length.
fn put_classic(buf: &mut Vec<u8>, v: Option<&[u8]>, wide: bool) -> (r: Result<(), EncodeError>)
    ensures
        r is Ok <==> classic_valid(opt_bytes(v), wide, false),
        r is Ok ==> final(buf)@ == old(buf)@ + classic_encode(opt_bytes(v), wide),
{
    reveal(classic_valid);
    reveal(classic_encode);
    match v {
        Some(b) => {
            if wide {
                if b.len() > 0x7fff_ffff {
                    return Err(EncodeError);
                }
                put_u32(buf, b.len() as i32 as u32);
            } else {
                if b.len() > 0x7fff {
                    return Err(EncodeError);
                }
                put_u16(buf, b.len() as i16 as u16);
            }
            let ghost mid = buf@;
            put_slice(buf, b);
            assert(buf@ =~= old(buf)@ + classic_encode(opt_bytes(v), wide));
        },
        None => {
            if wide {
                put_u32(buf, -1i32 as u32);
            } else {
                put_u16(buf, -1i16 as u16);
            }
        },
    }
    Ok(())
}

/// Writes a nullable payload behind a compact length.
fn put_compact(buf: &mut Vec<u8>, v: Option<&[u8]>) -> (r: Result<(), EncodeError>)
    ensures
        r is Ok <==> compact_valid(opt_bytes(v), false),
        r is Ok ==> final(buf)@ == old(buf)@ + compact_encode(opt_bytes(v)),
{
    reveal(compact_valid);
    reveal(compact_encode);
    match v {
        Some(b) => {
            if b.len() >= 0xffff_ffff {
                return Err(EncodeError);
            }
            put_uvarint(buf, (b.len() + 1) as u64);
            put_slice(buf, b);
            assert(buf@ =~= old(buf)@ + compact_encode(opt_bytes(v)));
        },
        None => {
            put_uvarint(buf, 0);
        },
    }
    Ok(())
}

/// The size of a nullable payload behind a classic length.
fn classic_size(v: Option<&[u8]>, wide: bool) -> (r: Result<usize, EncodeError>)
    ensures
        r is Ok <==> classic_valid(opt_bytes(v), wide, false),
        r matches Ok(n) ==> n == classic_encode(opt_bytes(v), wide).len(),
{
    reveal(classic_valid);
    reveal(classic_encode);
    let prefix: usize = if wide {
        4
    } else {
        2
    };
    match v {
        Some(b) => {
            if b.len() > (if wide {
                0x7fff_ffffusize
            } else {
                0x7fffusize
            }) {
                return Err(EncodeError);
            }
            Ok(prefix + b.len())
        },
        None => Ok(prefix),
    }
}

/// The size of a nullable payload behind a compact length.
fn compact_size(v: Option<&[u8]>) -> (r: Result<usize, EncodeError>)
    ensures
        r is Ok <==> (compact_valid(opt_bytes(v), false) && compact_encode(opt_bytes(v)).len()
            <= usize::MAX),
        r matches Ok(n) ==> n == compact_encode(opt_bytes(v)).len(),
{
    reveal(compact_valid);
    reveal(compact_encode);
    match v {
        Some(b) => {
            if b.len() >= 0xffff_ffff {
                return Err(EncodeError);
            }
            match b.len().checked_add(uvarint_size((b.len() + 1) as u64)) {
                Some(n) => Ok(n),
                None => Err(EncodeError),
            }
        },
        None => Ok(uvarint_size(0)),
    }
}

/// The bytes of an optional slice.
pub open spec fn opt_bytes(v: Option<&[u8]>) -> Option<Seq<u8>> {
    match v {
        Some(b) => Some(b@),
        None => None,
    }
}

/// Reads a nullable payload behind a classic length.
fn get_classic(buf: &[u8], pos: usize, wide: bool, text: bool) -> (r: Result<(Option<Vec<u8>>, usize), DecodeError>)
    requires
        pos <= buf@.len(),
    ensures
        decoded(r, classic_decode(buf@.skip(pos as int), wide, text), pos, buf@.len()),
{
    reveal(classic_decode);
    let ghost s = buf@.skip(pos as int);
    let (n, p): (i64, usize) = if wide {
        let (n, p) = <Int32 as Codec<i32>>::decode(&Int32, buf, pos)?;
        (n as i64, p)
    } else {
        let (n, p) = Int16.decode(buf, pos)?;
        (n as i64, p)
    };
    if n == -1 {
        return Ok((None, p));
    }
    if n < 0 {
        return Err(DecodeError);
    }
    assert(buf@.skip(p as int) =~= s.skip(p - pos));
    let (b, q) = get_payload(buf, p, n as usize, text)?;
    Ok((Some(b), q))
}

/// Reads a nullable payload behind a compact length.
fn get_compact(buf: &[u8], pos: usize, text: bool) -> (r: Result<(Option<Vec<u8>>, usize), DecodeError>)
    requires
        pos <= buf@.len(),
    ensures
        decoded(r, compact_decode(buf@.skip(pos as int), text), pos, buf@.len()),
{
    reveal(compact_decode);
    let ghost s = buf@.skip(pos as int);
    let (n, p) = UnsignedVarInt.decode(buf, pos)?;
    if n == 0 {
        return Ok((None, p));
    }
    assert(buf@.skip(p as int) =~= s.skip(p - pos));
    let (b, q) = get_payload(buf, p, (n - 1) as usize, text)?;
    Ok((Some(b), q))
}

/// A string whose length is a signed 16-bit integer, `-1` meaning null.
#[derive(Debug, Copy, Clone, Default)]
pub struct String;

/// The bytes of an optional text.
pub open spec fn opt_text(v: Option<&StrBytes>) -> Option<Seq<u8>> {
    match v {
        Some(t) => Some(t.deep_view()),
        None => None,
    }
}

impl String {
    fn put(buf: &mut Vec<u8>, v: Option<&StrBytes>) -> (r: Result<(), EncodeError>)
        ensures
            r is Ok <==> classic_valid(opt_text(v), false, true),
            r is Ok ==> final(buf)@ == old(buf)@ + classic_encode(opt_text(v), false),
    {
        reveal(classic_valid);
        match v {
            Some(t) => {
                t.lemma_well_formed();
                put_classic(buf, Some(t.as_bytes()), false)
            },
            None => put_classic(buf, None, false),
        }
    }

    fn size(v: Option<&StrBytes>) -> (r: Result<usize, EncodeError>)
        ensures
            r is Ok <==> classic_valid(opt_text(v), false, true),
            r matches Ok(n) ==> n == classic_encode(opt_text(v), false).len(),
    {
        reveal(classic_valid);
        reveal(classic_encode);
        match v {
            Some(t) => {
                t.lemma_well_formed();
                classic_size(Some(t.as_bytes()), false)
            },
            None => classic_size(None, false),
        }
    }

    fn get(buf: &[u8], pos: usize) -> (r: Result<(Option<StrBytes>, usize), DecodeError>)
        requires
            pos <= buf@.len(),
        ensures
            decoded(r, classic_decode(buf@.skip(pos as int), false, true), pos, buf@.len()),
    {
        reveal(classic_decode);
        let (v, p) = get_classic(buf, pos, false, true)?;
        match v {
            Some(bytes) => {
                assert(bytes.deep_view() =~= bytes@);
                Ok((Some(StrBytes { bytes }), p))
            },
            None => Ok((None, p)),
        }
    }
}

impl Codec<StrBytes> for String {
    open spec fn valid(&self, v: Seq<u8>) -> bool {
        classic_valid(Some(v), false, true)
    }

    open spec fn spec_encode(&self, v: Seq<u8>) -> Seq<u8> {
        classic_encode(Some(v), false)
    }

    open spec fn spec_decode(&self, s: Seq<u8>) -> Option<(Seq<u8>, nat)> {
        required(classic_decode(s, false, true))
    }

    proof fn lemma_decode_encode(&self, v: Seq<u8>, rest: Seq<u8>) {
        lemma_classic_round_trip(Some(v), false, true, rest);
    }

    fn encode(&self, buf: &mut Vec<u8>, value: &StrBytes) -> (r: Result<(), EncodeError>) {
        String::put(buf, Some(value))
    }

    fn compute_size(&self, value: &StrBytes) -> (r: Result<usize, EncodeError>) {
        String::size(Some(value))
    }

    fn decode(&self, buf: &[u8], pos: usize) -> (r: Result<(StrBytes, usize), DecodeError>) {
        match String::get(buf, pos)? {
            (Some(t), p) => Ok((t, p)),
            (None, _) => Err(DecodeError),
        }
    }
}

impl Codec<Option<StrBytes>> for String {
    open spec fn valid(&self, v: Option<Seq<u8>>) -> bool {
        classic_valid(v, false, true)
    }

    open spec fn spec_encode(&self, v: Option<Seq<u8>>) -> Seq<u8> {
        classic_encode(v, false)
    }

    open spec fn spec_decode(&self, s: Seq<u8>) -> Option<(Option<Seq<u8>>, nat)> {
        classic_decode(s, false, true)
    }

    proof fn lemma_decode_encode(&self, v: Option<Seq<u8>>, rest: Seq<u8>) {
        lemma_classic_round_trip(v, false, true, rest);
    }

    fn encode(&self, buf: &mut Vec<u8>, value: &Option<StrBytes>) -> (r: Result<(), EncodeError>) {
        String::put(buf, value.as_ref())
    }

    fn compute_size(&self, value: &Option<StrBytes>) -> (r: Result<usize, EncodeError>) {
        String::size(value.as_ref())
    }

    fn decode(&self, buf: &[u8], pos: usize) -> (r: Result<(Option<StrBytes>, usize), DecodeError>) {
        String::get(buf, pos)
    }
}

/// A string whose length plus one is a varint, zero meaning null.
#[derive(Debug, Copy, Clone, Default)]
pub struct CompactString;

impl CompactString {
    fn put(buf: &mut Vec<u8>, v: Option<&StrBytes>) -> (r: Result<(), EncodeError>)
        ensures
            r is Ok <==> compact_valid(opt_text(v), true),
            r is Ok ==> final(buf)@ == old(buf)@ + compact_encode(opt_text(v)),
    {
        reveal(compact_valid);
        match v {
            Some(t) => {
                t.lemma_well_formed();
                put_compact(buf, Some(t.as_bytes()))
            },
            None => put_compact(buf, None),
        }
    }

    fn size(v: Option<&StrBytes>) -> (r: Result<usize, EncodeError>)
        ensures
            r is Ok <==> (compact_valid(opt_text(v), true) && compact_encode(opt_text(v)).len()
                <= usize::MAX),
            r matches Ok(n) ==> n == compact_encode(opt_text(v)).len(),
    {
        reveal(compact_valid);
        reveal(compact_encode);
        match v {
            Some(t) => {
                t.lemma_well_formed();
                compact_size(Some(t.as_bytes()))
            },
            None => compact_size(None),
        }
    }

    fn get(buf: &[u8], pos: usize) -> (r: Result<(Option<StrBytes>, usize), DecodeError>)
        requires
            pos <= buf@.len(),
        ensures
            decoded(r, compact_decode(buf@.skip(pos as int), true), pos, buf@.len()),
    {
        reveal(compact_decode);
        let (v, p) = get_compact(buf, pos, true)?;
        match v {
            Some(bytes) => {
                assert(bytes.deep_view() =~= bytes@);
                Ok((Some(StrBytes { bytes }), p))
            },
            None => Ok((None, p)),
        }
    }
}

impl Codec<StrBytes> for CompactString {
    open spec fn valid(&self, v: Seq<u8>) -> bool {
        compact_valid(Some(v), true)
    }

    open spec fn spec_encode(&self, v: Seq<u8>) -> Seq<u8> {
        compact_encode(Some(v))
    }

    open spec fn spec_decode(&self, s: Seq<u8>) -> Option<(Seq<u8>, nat)> {
        required(compact_decode(s, true))
    }

    proof fn lemma_decode_encode(&self, v: Seq<u8>, rest: Seq<u8>) {
        lemma_compact_round_trip(Some(v), true, rest);
    }

    fn encode(&self, buf: &mut Vec<u8>, value: &StrBytes) -> (r: Result<(), EncodeError>) {
        CompactString::put(buf, Some(value))
    }

    fn compute_size(&self, value: &StrBytes) -> (r: Result<usize, EncodeError>) {
        CompactString::size(Some(value))
    }

    fn decode(&self, buf: &[u8], pos: usize) -> (r: Result<(StrBytes, usize), DecodeError>) {
        match CompactString::get(buf, pos)? {
            (Some(t), p) => Ok((t, p)),
            (None, _) => Err(DecodeError),
        }
    }
}

impl Codec<Option<StrBytes>> for CompactString {
    open spec fn valid(&self, v: Option<Seq<u8>>) -> bool {
        compact_valid(v, true)
    }

    open spec fn spec_encode(&self, v: Option<Seq<u8>>) -> Seq<u8> {
        compact_encode(v)
    }

    open spec fn spec_decode(&self, s: Seq<u8>) -> Option<(Option<Seq<u8>>, nat)> {
        compact_decode(s, true)
    }

    proof fn lemma_decode_encode(&self, v: Option<Seq<u8>>, rest: Seq<u8>) {
        lemma_compact_round_trip(v, true, rest);
    }

    fn encode(&self, buf: &mut Vec<u8>, value: &Option<StrBytes>) -> (r: Result<(), EncodeError>) {
        CompactString::put(buf, value.as_ref())
    }

    fn compute_size(&self, value: &Option<StrBytes>) -> (r: Result<usize, EncodeError>) {
        CompactString::size(value.as_ref())
    }

    fn decode(&self, buf: &[u8], pos: usize) -> (r: Result<(Option<StrBytes>, usize), DecodeError>) {
        CompactString::get(buf, pos)
    }
}

/// The bytes of an optional byte vector.
pub open spec fn opt_vec(v: Option<&Vec<u8>>) -> Option<Seq<u8>> {
    match v {
        Some(b) => Some(b.deep_view()),
        None => None,
    }
}

/// The slice of an optional byte vector.
fn as_opt_slice(v: Option<&Vec<u8>>) -> (r: Option<&[u8]>)
    ensures
        opt_bytes(r) == opt_vec(v),
{
    match v {
        Some(b) => {
            assert(b.deep_view() =~= b@);
            Some(b.as_slice())
        },
        None => None,
    }
}

/// A byte array whose length is a signed 32-bit integer, `-1` meaning null.
#[derive(Debug, Copy, Clone, Default)]
pub struct Bytes;

impl Codec<Vec<u8>> for Bytes {
    open spec fn valid(&self, v: Seq<u8>) -> bool {
        classic_valid(Some(v), true, false)
    }

    open spec fn spec_encode(&self, v: Seq<u8>) -> Seq<u8> {
        classic_encode(Some(v), true)
    }

    open spec fn spec_decode(&self, s: Seq<u8>) -> Option<(Seq<u8>, nat)> {
        required(classic_decode(s, true, false))
    }

    proof fn lemma_decode_encode(&self, v: Seq<u8>, rest: Seq<u8>) {
        lemma_classic_round_trip(Some(v), true, false, rest);
    }

    fn encode(&self, buf: &mut Vec<u8>, value: &Vec<u8>) -> (r: Result<(), EncodeError>) {
        put_classic(buf, as_opt_slice(Some(value)), true)
    }

    fn compute_size(&self, value: &Vec<u8>) -> (r: Result<usize, EncodeError>) {
        classic_size(as_opt_slice(Some(value)), true)
    }

    fn decode(&self, buf: &[u8], pos: usize) -> (r: Result<(Vec<u8>, usize), DecodeError>) {
        match get_classic(buf, pos, true, false)? {
            (Some(b), p) => Ok((b, p)),
            (None, _) => Err(DecodeError),
        }
    }
}

impl Codec<Option<Vec<u8>>> for Bytes {
    open spec fn valid(&self, v: Option<Seq<u8>>) -> bool {
        classic_valid(v, true, false)
    }

    open spec fn spec_encode(&self, v: Option<Seq<u8>>) -> Seq<u8> {
        classic_encode(v, true)
    }

    open spec fn spec_decode(&self, s: Seq<u8>) -> Option<(Option<Seq<u8>>, nat)> {
        classic_decode(s, true, false)
    }

    proof fn lemma_decode_encode(&self, v: Option<Seq<u8>>, rest: Seq<u8>) {
        lemma_classic_round_trip(v, true, false, rest);
    }

    fn encode(&self, buf: &mut Vec<u8>, value: &Option<Vec<u8>>) -> (r: Result<(), EncodeError>) {
        put_classic(buf, as_opt_slice(value.as_ref()), true)
    }

    fn compute_size(&self, value: &Option<Vec<u8>>) -> (r: Result<usize, EncodeError>) {
        classic_size(as_opt_slice(value.as_ref()), true)
    }

    fn decode(&self, buf: &[u8], pos: usize) -> (r: Result<(Option<Vec<u8>>, usize), DecodeError>) {
        get_classic(buf, pos, true, false)
    }
}

/// A byte array whose length plus one is a varint, zero meaning null.
#[derive(Debug, Copy, Clone, Default)]
pub struct CompactBytes;

impl Codec<Vec<u8>> for CompactBytes {
    open spec fn valid(&self, v: Seq<u8>) -> bool {
        compact_valid(Some(v), false)
    }

    open spec fn spec_encode(&self, v: Seq<u8>) -> Seq<u8> {
        compact_encode(Some(v))
    }

    open spec fn spec_decode(&self, s: Seq<u8>) -> Option<(Seq<u8>, nat)> {
        required(compact_decode(s, false))
    }

    proof fn lemma_decode_encode(&self, v: Seq<u8>, rest: Seq<u8>) {
        lemma_compact_round_trip(Some(v), false, rest);
    }

    fn encode(&self, buf: &mut Vec<u8>, value: &Vec<u8>) -> (r: Result<(), EncodeError>) {
        put_compact(buf, as_opt_slice(Some(value)))
    }

    fn compute_size(&self, value: &Vec<u8>) -> (r: Result<usize, EncodeError>) {
        compact_size(as_opt_slice(Some(value)))
    }

    fn decode(&self, buf: &[u8], pos: usize) -> (r: Result<(Vec<u8>, usize), DecodeError>) {
        match get_compact(buf, pos, false)? {
            (Some(b), p) => Ok((b, p)),
            (None, _) => Err(DecodeError),
        }
    }
}

impl Codec<Option<Vec<u8>>> for CompactBytes {
    open spec fn valid(&self, v: Option<Seq<u8>>) -> bool {
        compact_valid(v, false)
    }

    open spec fn spec_encode(&self, v: Option<Seq<u8>>) -> Seq<u8> {
        compact_encode(v)
    }

    open spec fn spec_decode(&self, s: Seq<u8>) -> Option<(Option<Seq<u8>>, nat)> {
        compact_decode(s, false)
    }

    proof fn lemma_decode_encode(&self, v: Option<Seq<u8>>, rest: Seq<u8>) {
        lemma_compact_round_trip(v, false, rest);
    }

    fn encode(&self, buf: &mut Vec<u8>, value: &Option<Vec<u8>>) -> (r: Result<(), EncodeError>) {
        put_compact(buf, as_opt_slice(value.as_ref()))
    }

    fn compute_size(&self, value: &Option<Vec<u8>>) -> (r: Result<usize, EncodeError>) {
        compact_size(as_opt_slice(value.as_ref()))
    }

    fn decode(&self, buf: &[u8], pos: usize) -> (r: Result<(Option<Vec<u8>>, usize), DecodeError>) {
        get_compact(buf, pos, false)
    }
}

// ---------------------------------------------------------------------------
// Nested structures
// ---------------------------------------------------------------------------

/// A nested message, written with the version of the message around it.
#[derive(Debug, Copy, Clone, Default)]
pub struct Struct {
    /// The version the nested message is laid out for.
    pub version: i16,
}

impl<T: Message> Codec<T> for Struct {
    open spec fn valid(&self, v: T::V) -> bool {
        T::spec_valid(v, self.version)
    }

    open spec fn spec_encode(&self, v: T::V) -> Seq<u8> {
        T::spec_encode(v, self.version)
    }

    open spec fn spec_decode(&self, s: Seq<u8>) -> Option<(T::V, nat)> {
        T::spec_decode(s, self.version)
    }

    proof fn lemma_decode_encode(&self, v: T::V, rest: Seq<u8>) {
        T::lemma_decode_encode(v, self.version, rest);
    }

    fn encode(&self, buf: &mut Vec<u8>, value: &T) -> (r: Result<(), EncodeError>) {
        value.encode(buf, self.version)
    }

    fn compute_size(&self, value: &T) -> (r: Result<usize, EncodeError>) {
        value.compute_size(self.version)
    }

    fn decode(&self, buf: &[u8], pos: usize) -> (r: Result<(T, usize), DecodeError>) {
        T::decode(buf, pos, self.version)
    }
}

/// A nullable nested message: one signed byte, `1` when the message follows
/// and `-1` when it is absent.
impl<T: Message> Codec<Option<T>> for Struct {
    open spec fn valid(&self, v: Option<T::V>) -> bool {
        match v {
            Some(m) => T::spec_valid(m, self.version),
            None => true,
        }
    }

    open spec fn spec_encode(&self, v: Option<T::V>) -> Seq<u8> {
        match v {
            Some(m) => seq![1u8] + T::spec_encode(m, self.version),
            None => seq![0xffu8],
        }
    }

    open spec fn spec_decode(&self, s: Seq<u8>) -> Option<(Option<T::V>, nat)> {
        match Int8.spec_decode(s) {
            Some((flag, k)) => if flag == -1 {
                Some((None, k))
            } else {
                match T::spec_decode(s.skip(k as int), self.version) {
                    Some((m, n)) => Some((Some(m), k + n)),
                    None => None,
                }
            },
            None => None,
        }
    }

    proof fn lemma_decode_encode(&self, v: Option<T::V>, rest: Seq<u8>) {
        assert((0xffu8 as i8) == -1i8) by (bit_vector);
        assert((1u8 as i8) == 1i8) by (bit_vector);
        if let Some(m) = v {
            let e = T::spec_encode(m, self.version);
            assert(seq![1u8] + e + rest =~= seq![1u8] + (e + rest));
            lemma_skip_prefix(seq![1u8], e + rest);
            T::lemma_decode_encode(m, self.version, rest);
        }
    }

    fn encode(&self, buf: &mut Vec<u8>, value: &Option<T>) -> (r: Result<(), EncodeError>) {
        match value {
            Some(m) => {
                let ghost before = buf@;
                buf.push(1);
                let r = m.encode(buf, self.version);
                proof {
                    if r is Ok {
                        assert(buf@ =~= before + <Struct as Codec<Option<T>>>::spec_encode(self, value.deep_view()));
                    }
                }
                r
            },
            None => {
                buf.push(0xff);
                assert(buf@ =~= old(buf)@ + <Struct as Codec<Option<T>>>::spec_encode(self, value.deep_view()));
                Ok(())
            },
        }
    }

    fn compute_size(&self, value: &Option<T>) -> (r: Result<usize, EncodeError>) {
        match value {
            Some(m) => {
                let n = m.compute_size(self.version)?;
                if n == usize::MAX {
                    return Err(EncodeError);
                }
                Ok(n + 1)
            },
            None => Ok(1),
        }
    }

    fn decode(&self, buf: &[u8], pos: usize) -> (r: Result<(Option<T>, usize), DecodeError>) {
        let ghost s = buf@.skip(pos as int);
        let (flag, p) = Int8.decode(buf, pos)?;
        if flag == -1 {
            return Ok((None, p));
        }
        assert(buf@.skip(p as int) =~= s.skip(1));
        let (m, q) = T::decode(buf, p, self.version)?;
        Ok((Some(m), q))
    }
}

// ---------------------------------------------------------------------------
// Arrays
// ---------------------------------------------------------------------------

/// Whether every item has an encoding.
pub open spec fn items_valid<T: DeepView, E: Codec<T>>(e: E, xs: Seq<T::V>) -> bool {
    forall|i: int| 0 <= i < xs.len() ==> #[trigger] e.valid(xs[i])
}

/// The items' encodings, one after the other.
pub open spec fn items_encode<T: DeepView, E: Codec<T>>(e: E, xs: Seq<T::V>) -> Seq<u8>
    decreases xs.len(),
{
    if xs.len() == 0 {
        Seq::empty()
    } else {
        items_encode::<T, E>(e, xs.drop_last()) + e.spec_encode(xs.last())
    }
}

/// `n` items read one after the other from the start of `s`.
pub open spec fn items_decode<T: DeepView, E: Codec<T>>(e: E, s: Seq<u8>, n: nat) -> Option<
    (Seq<T::V>, nat),
>
    decreases n,
{
    if n == 0 {
        Some((Seq::empty(), 0))
    } else {
        match items_decode::<T, E>(e, s, (n - 1) as nat) {
            Some((xs, k)) => match e.spec_decode(s.skip(k as int)) {
                Some((x, m)) => Some((xs.push(x), k + m)),
                None => None,
            },
            None => None,
        }
    }
}

proof fn lemma_items_round_trip<T: DeepView, E: Codec<T>>(e: E, xs: Seq<T::V>, rest: Seq<u8>)
    requires
        items_valid::<T, E>(e, xs),
    ensures
        items_decode::<T, E>(e, items_encode::<T, E>(e, xs) + rest, xs.len()) == Some(
            (xs, items_encode::<T, E>(e, xs).len()),
        ),
    decreases xs.len(),
{
    if xs.len() == 0 {
        assert(xs =~= Seq::<T::V>::empty());
    } else {
        let init = xs.drop_last();
        let x = xs.last();
        let ei = items_encode::<T, E>(e, init);
        let ex = e.spec_encode(x);
        assert(ei + ex + rest =~= ei + (ex + rest));
        assert forall|i: int| 0 <= i < init.len() implies #[trigger] e.valid(init[i]) by {
            assert(init[i] == xs[i]);
        }
        assert(e.valid(xs[xs.len() - 1]));
        lemma_items_round_trip::<T, E>(e, init, ex + rest);
        lemma_skip_prefix(ei, ex + rest);
        e.lemma_decode_encode(x, rest);
        assert(init.push(x) =~= xs);
    }
}

proof fn lemma_items_decode_stops<T: DeepView, E: Codec<T>>(e: E, s: Seq<u8>, i: nat, n: nat)
    requires
        i <= n,
        items_decode::<T, E>(e, s, i) is None,
    ensures
        items_decode::<T, E>(e, s, n) is None,
    decreases n - i,
{
    if i < n {
        lemma_items_decode_stops::<T, E>(e, s, i, (n - 1) as nat);
    }
}

proof fn lemma_items_encode_prefix<T: DeepView, E: Codec<T>>(e: E, xs: Seq<T::V>, j: int)
    requires
        0 <= j <= xs.len(),
    ensures
        items_encode::<T, E>(e, xs.take(j)).len() <= items_encode::<T, E>(e, xs).len(),
    decreases xs.len(),
{
    if j == xs.len() {
        assert(xs.take(j) =~= xs);
    } else {
        assert(xs.drop_last().take(j) =~= xs.take(j));
        lemma_items_encode_prefix::<T, E>(e, xs.drop_last(), j);
    }
}

/// Writes every item of `items` with `e`, stopping at the first failure.
fn encode_items<T: DeepView, E: Codec<T>>(e: &E, buf: &mut Vec<u8>, items: &Vec<T>) -> (r: Result<(), EncodeError>)
    ensures
        r is Ok <==> items_valid::<T, E>(*e, items.deep_view()),
        r is Ok ==> final(buf)@ == old(buf)@ + items_encode::<T, E>(*e, items.deep_view()),
{
    let ghost xs = items.deep_view();
    let mut i: usize = 0;
    while i < items.len()
        invariant
            i <= items@.len(),
            xs == items.deep_view(),
            buf@ == old(buf)@ + items_encode::<T, E>(*e, xs.take(i as int)),
            forall|j: int| 0 <= j < i ==> #[trigger] e.valid(xs[j]),
        decreases items@.len() - i,
    {
        let ghost before = buf@;
        assert(xs[i as int] == items@[i as int].deep_view());
        if e.encode(buf, &items[i]).is_err() {
            assert(!e.valid(xs[i as int]));
            return Err(EncodeError);
        }
        assert(xs.take(i + 1).drop_last() =~= xs.take(i as int));
        i = i + 1;
        assert(buf@ =~= old(buf)@ + items_encode::<T, E>(*e, xs.take(i as int)));
    }
    assert(xs.take(i as int) =~= xs);
    Ok(())
}

/// `start` plus the size of every item of `items`.
fn items_size<T: DeepView, E: Codec<T>>(e: &E, items: &Vec<T>, start: usize) -> (r: Result<usize, EncodeError>)
    ensures
        r is Ok <==> (items_valid::<T, E>(*e, items.deep_view()) && start + items_encode::<T, E>(
            *e,
            items.deep_view(),
        ).len() <= usize::MAX),
        r matches Ok(n) ==> n == start + items_encode::<T, E>(*e, items.deep_view()).len(),
{
    let ghost xs = items.deep_view();
    let mut total: usize = start;
    let mut i: usize = 0;
    while i < items.len()
        invariant
            i <= items@.len(),
            xs == items.deep_view(),
            total == start + items_encode::<T, E>(*e, xs.take(i as int)).len(),
            forall|j: int| 0 <= j < i ==> #[trigger] e.valid(xs[j]),
        decreases items@.len() - i,
    {
        assert(xs[i as int] == items@[i as int].deep_view());
        assert(xs.take(i + 1).drop_last() =~= xs.take(i as int));
        proof {
            lemma_items_encode_prefix::<T, E>(*e, xs, i + 1);
        }
        let n = match e.compute_size(&items[i]) {
            Ok(n) => n,
            Err(_) => {
                return Err(EncodeError);
            },
        };
        total = match total.checked_add(n) {
            Some(t) => t,
            None => {
                return Err(EncodeError);
            },
        };
        i = i + 1;
    }
    assert(xs.take(i as int) =~= xs);
    Ok(total)
}

/// Reads `n` items with `e` from `buf` at `pos`.
fn decode_items<T: DeepView, E: Codec<T>>(e: &E, buf: &[u8], pos: usize, n: usize) -> (r: Result<(Vec<T>, usize), DecodeError>)
    requires
        pos <= buf@.len(),
    ensures
        decoded(r, items_decode::<T, E>(*e, buf@.skip(pos as int), n as nat), pos, buf@.len()),
{
    let ghost s = buf@.skip(pos as int);
    let mut items: Vec<T> = Vec::new();
    let mut p: usize = pos;
    let mut i: usize = 0;
    assert(items.deep_view() =~= Seq::<T::V>::empty());
    while i < n
        invariant
            i <= n,
            pos <= p <= buf@.len(),
            s == buf@.skip(pos as int),
            items_decode::<T, E>(*e, s, i as nat) == Some((items.deep_view(), (p - pos) as nat)),
        decreases n - i,
    {
        assert(buf@.skip(p as int) =~= s.skip(p - pos));
        match e.decode(buf, p) {
            Ok((x, q)) => {
                let ghost old_items = items.deep_view();
                items.push(x);
                assert(items.deep_view() =~= old_items.push(x.deep_view()));
                p = q;
                i = i + 1;
            },
            Err(_) => {
                proof {
                    lemma_items_decode_stops::<T, E>(*e, s, (i + 1) as nat, n as nat);
                }
                return Err(DecodeError);
            },
        }
    }
    Ok((items, p))
}

/// The items of an optional vector.
pub open spec fn opt_items<T: DeepView>(v: Option<&Vec<T>>) -> Option<Seq<T::V>> {
    match v {
        Some(xs) => Some(xs.deep_view()),
        None => None,
    }
}

/// Whether a nullable array has an encoding: the count must fit its prefix
/// (31 bits when classic, 32 bits less one when compact) and every item must
/// have an encoding.
#[verifier::opaque]
pub open spec fn array_valid<T: DeepView, E: Codec<T>>(e: E, v: Option<Seq<T::V>>, compact: bool) -> bool {
    match v {
        Some(xs) => (if compact {
            xs.len() < 0xffff_ffff
        } else {
            xs.len() <= 0x7fff_ffff
        }) && items_valid::<T, E>(e, xs),
        None => true,
    }
}

/// The encoding of a nullable array: a count, `-1` or `0` for null, then the
/// items.
#[verifier::opaque]
pub open spec fn array_encode<T: DeepView, E: Codec<T>>(e: E, v: Option<Seq<T::V>>, compact: bool) -> Seq<u8> {
    match v {
        Some(xs) => (if compact {
            uvarint_bytes(xs.len() + 1)
        } else {
            be32(xs.len() as i32 as u32)
        }) + items_encode::<T, E>(e, xs),
        None => if compact {
            uvarint_bytes(0)
        } else {
            be32(-1i32 as u32)
        },
    }
}

/// The nullable array at the start of `s`.
#[verifier::opaque]
pub open spec fn array_decode<T: DeepView, E: Codec<T>>(e: E, s: Seq<u8>, compact: bool) -> Option<
    (Option<Seq<T::V>>, nat),
> {
    let count: Option<(int, nat)> = if compact {
        match UnsignedVarInt.spec_decode(s) {
            Some((n, k)) => Some((n - 1, k)),
            None => None,
        }
    } else {
        match <Int32 as Codec<i32>>::spec_decode(&Int32, s) {
            Some((n, k)) => Some((n as int, k)),
            None => None,
        }
    };
    match count {
        Some((n, k)) => if n == -1 {
            Some((None, k))
        } else if n < 0 {
            None
        } else {
            match items_decode::<T, E>(e, s.skip(k as int), n as nat) {
                Some((xs, m)) => Some((Some(xs), k + m)),
                None => None,
            }
        },
        None => None,
    }
}

/// Drops the null case of a nullable array decoding.
pub open spec fn required_items<V>(p: Option<(Option<Seq<V>>, nat)>) -> Option<(Seq<V>, nat)> {
    match p {
        Some((Some(xs), k)) => Some((xs, k)),
        _ => None,
    }
}

pub proof fn lemma_array_round_trip<T: DeepView, E: Codec<T>>(e: E, v: Option<Seq<T::V>>, compact: bool, rest: Seq<u8>)
    requires
        array_valid::<T, E>(e, v, compact),
    ensures
        array_decode::<T, E>(e, array_encode::<T, E>(e, v, compact) + rest, compact) == Some(
            (v, array_encode::<T, E>(e, v, compact).len()),
        ),
{
    reveal(array_valid);
    reveal(array_encode);
    reveal(array_decode);
    match v {
        Some(xs) => {
            let body = items_encode::<T, E>(e, xs);
            let prefix = if compact {
                uvarint_bytes(xs.len() + 1)
            } else {
                be32(xs.len() as i32 as u32)
            };
            assert(prefix + body + rest =~= prefix + (body + rest));
            if compact {
                UnsignedVarInt.lemma_decode_encode((xs.len() + 1) as u32, body + rest);
            } else {
                <Int32 as Codec<i32>>::lemma_decode_encode(&Int32, xs.len() as i32, body + rest);
            }
            lemma_skip_prefix(prefix, body + rest);
            lemma_items_round_trip::<T, E>(e, xs, rest);
        },
        None => {
            if compact {
                UnsignedVarInt.lemma_decode_encode(0, rest);
            } else {
                <Int32 as Codec<i32>>::lemma_decode_encode(&Int32, -1i32, rest);
            }
        },
    }
}

fn put_array<T: DeepView, E: Codec<T>>(e: &E, buf: &mut Vec<u8>, v: Option<&Vec<T>>, compact: bool) -> (r: Result<(), EncodeError>)
    ensures
        r is Ok <==> array_valid::<T, E>(*e, opt_items(v), compact),
        r is Ok ==> final(buf)@ == old(buf)@ + array_encode::<T, E>(*e, opt_items(v), compact),
{
    reveal(array_valid);
    reveal(array_encode);
    match v {
        Some(items) => {
            if compact {
                if items.len() >= 0xffff_ffff {
                    return Err(EncodeError);
                }
                put_uvarint(buf, (items.len() + 1) as u64);
            } else {
                if items.len() > 0x7fff_ffff {
                    return Err(EncodeError);
                }
                put_u32(buf, items.len() as i32 as u32);
            }
            let ghost mid = buf@;
            let r = encode_items(e, buf, items);
            proof {
                if r is Ok {
                    assert(buf@ =~= old(buf)@ + array_encode::<T, E>(*e, opt_items(v), compact));
                }
            }
            r
        },
        None => {
            if compact {
                put_uvarint(buf, 0);
            } else {
                put_u32(buf, -1i32 as u32);
            }
            Ok(())
        },
    }
}

fn array_size<T: DeepView, E: Codec<T>>(e: &E, v: Option<&Vec<T>>, compact: bool) -> (r: Result<usize, EncodeError>)
    ensures
        r is Ok <==> (array_valid::<T, E>(*e, opt_items(v), compact) && array_encode::<T, E>(
            *e,
            opt_items(v),
            compact,
        ).len() <= usize::MAX),
        r matches Ok(n) ==> n == array_encode::<T, E>(*e, opt_items(v), compact).len(),
{
    reveal(array_valid);
    reveal(array_encode);
    match v {
        Some(items) => {
            let prefix: usize = if compact {
                if items.len() >= 0xffff_ffff {
                    return Err(EncodeError);
                }
                uvarint_size((items.len() + 1) as u64)
            } else {
                if items.len() > 0x7fff_ffff {
                    return Err(EncodeError);
                }
                4
            };
            items_size(e, items, prefix)
        },
        None => Ok(
            if compact {
                uvarint_size(0)
            } else {
                4
            },
        ),
    }
}

fn get_array<T: DeepView, E: Codec<T>>(e: &E, buf: &[u8], pos: usize, compact: bool) -> (r: Result<(Option<Vec<T>>, usize), DecodeError>)
    requires
        pos <= buf@.len(),
    ensures
        decoded(r, array_decode::<T, E>(*e, buf@.skip(pos as int), compact), pos, buf@.len()),
{
    reveal(array_decode);
    let ghost s = buf@.skip(pos as int);
    let (n, p): (i64, usize) = if compact {
        let (n, p) = UnsignedVarInt.decode(buf, pos)?;
        (n as i64 - 1, p)
    } else {
        let (n, p) = <Int32 as Codec<i32>>::decode(&Int32, buf, pos)?;
        (n as i64, p)
    };
    if n == -1 {
        return Ok((None, p));
    }
    if n < 0 {
        return Err(DecodeError);
    }
    assert(buf@.skip(p as int) =~= s.skip(p - pos));
    let (items, q) = decode_items(e, buf, p, n as usize)?;
    Ok((Some(items), q))
}

/// An array whose count is a signed 32-bit integer, `-1` meaning null.
#[derive(Debug)]
pub struct Array<E>(pub E);

impl<T: DeepView, E: Codec<T>> Codec<Vec<T>> for Array<E> {
    open spec fn valid(&self, v: Seq<T::V>) -> bool {
        array_valid::<T, E>(self.0, Some(v), false)
    }

    open spec fn spec_encode(&self, v: Seq<T::V>) -> Seq<u8> {
        array_encode::<T, E>(self.0, Some(v), false)
    }

    open spec fn spec_decode(&self, s: Seq<u8>) -> Option<(Seq<T::V>, nat)> {
        required_items(array_decode::<T, E>(self.0, s, false))
    }

    proof fn lemma_decode_encode(&self, v: Seq<T::V>, rest: Seq<u8>) {
        lemma_array_round_trip::<T, E>(self.0, Some(v), false, rest);
    }

    fn encode(&self, buf: &mut Vec<u8>, value: &Vec<T>) -> (r: Result<(), EncodeError>) {
        put_array(&self.0, buf, Some(value), false)
    }

    fn compute_size(&self, value: &Vec<T>) -> (r: Result<usize, EncodeError>) {
        array_size(&self.0, Some(value), false)
    }

    fn decode(&self, buf: &[u8], pos: usize) -> (r: Result<(Vec<T>, usize), DecodeError>) {
        match get_array(&self.0, buf, pos, false)? {
            (Some(items), p) => Ok((items, p)),
            (None, _) => Err(DecodeError),
        }
    }
}

impl<T: DeepView, E: Codec<T>> Codec<Option<Vec<T>>> for Array<E> {
    open spec fn valid(&self, v: Option<Seq<T::V>>) -> bool {
        array_valid::<T, E>(self.0, v, false)
    }

    open spec fn spec_encode(&self, v: Option<Seq<T::V>>) -> Seq<u8> {
        array_encode::<T, E>(self.0, v, false)
    }

    open spec fn spec_decode(&self, s: Seq<u8>) -> Option<(Option<Seq<T::V>>, nat)> {
        array_decode::<T, E>(self.0, s, false)
    }

    proof fn lemma_decode_encode(&self, v: Option<Seq<T::V>>, rest: Seq<u8>) {
        lemma_array_round_trip::<T, E>(self.0, v, false, rest);
    }

    fn encode(&self, buf: &mut Vec<u8>, value: &Option<Vec<T>>) -> (r: Result<(), EncodeError>) {
        put_array(&self.0, buf, value.as_ref(), false)
    }

    fn compute_size(&self, value: &Option<Vec<T>>) -> (r: Result<usize, EncodeError>) {
        array_size(&self.0, value.as_ref(), false)
    }

    fn decode(&self, buf: &[u8], pos: usize) -> (r: Result<(Option<Vec<T>>, usize), DecodeError>) {
        get_array(&self.0, buf, pos, false)
    }
}

/// An array whose count plus one is a varint, zero meaning null.
#[derive(Debug)]
pub struct CompactArray<E>(pub E);

impl<T: DeepView, E: Codec<T>> Codec<Vec<T>> for CompactArray<E> {
    open spec fn valid(&self, v: Seq<T::V>) -> bool {
        array_valid::<T, E>(self.0, Some(v), true)
    }

    open spec fn spec_encode(&self, v: Seq<T::V>) -> Seq<u8> {
        array_encode::<T, E>(self.0, Some(v), true)
    }

    open spec fn spec_decode(&self, s: Seq<u8>) -> Option<(Seq<T::V>, nat)> {
        required_items(array_decode::<T, E>(self.0, s, true))
    }

    proof fn lemma_decode_encode(&self, v: Seq<T::V>, rest: Seq<u8>) {
        lemma_array_round_trip::<T, E>(self.0, Some(v), true, rest);
    }

    fn encode(&self, buf: &mut Vec<u8>, value: &Vec<T>) -> (r: Result<(), EncodeError>) {
        put_array(&self.0, buf, Some(value), true)
    }

    fn compute_size(&self, value: &Vec<T>) -> (r: Result<usize, EncodeError>) {
        array_size(&self.0, Some(value), true)
    }

    fn decode(&self, buf: &[u8], pos: usize) -> (r: Result<(Vec<T>, usize), DecodeError>) {
        match get_array(&self.0, buf, pos, true)? {
            (Some(items), p) => Ok((items, p)),
            (None, _) => Err(DecodeError),
        }
    }
}

impl<T: DeepView, E: Codec<T>> Codec<Option<Vec<T>>> for CompactArray<E> {
    open spec fn valid(&self, v: Option<Seq<T::V>>) -> bool {
        array_valid::<T, E>(self.0, v, true)
    }

    open spec fn spec_encode(&self, v: Option<Seq<T::V>>) -> Seq<u8> {
        array_encode::<T, E>(self.0, v, true)
    }

    open spec fn spec_decode(&self, s: Seq<u8>) -> Option<(Option<Seq<T::V>>, nat)> {
        array_decode::<T, E>(self.0, s, true)
    }

    proof fn lemma_decode_encode(&self, v: Option<Seq<T::V>>, rest: Seq<u8>) {
        lemma_array_round_trip::<T, E>(self.0, v, true, rest);
    }

    fn encode(&self, buf: &mut Vec<u8>, value: &Option<Vec<T>>) -> (r: Result<(), EncodeError>) {
        put_array(&self.0, buf, value.as_ref(), true)
    }

    fn compute_size(&self, value: &Option<Vec<T>>) -> (r: Result<usize, EncodeError>) {
        array_size(&self.0, value.as_ref(), true)
    }

    fn decode(&self, buf: &[u8], pos: usize) -> (r: Result<(Option<Vec<T>>, usize), DecodeError>) {
        get_array(&self.0, buf, pos, true)
    }
}

} // verus!
