//! Snappy compression in the framing that Java clients use: a sixteen-byte
//! header, then blocks of at most 32 KiB of input, each compressed on its own
//! and written behind its compressed length as a big-endian 32-bit integer.
use vstd::prelude::*;

use crate::protocol::types::{be32, from_be32, lemma_be32, put_slice, put_u32};
use crate::protocol::{DecodeError, EncodeError};

verus! {

/// What raw Snappy compression makes of `data`.
pub uninterp spec fn snappy_compressed(data: Seq<u8>) -> Seq<u8>;

/// What raw Snappy decompression makes of `data`: nothing when `data` is not
/// a well-formed compressed block.
pub uninterp spec fn snappy_decompressed(data: Seq<u8>) -> Option<Seq<u8>>;

/// Relies on `snap::raw::Encoder::compress_vec`: compresses one block. The
/// output depends on the input alone, is at most `32 + n + n / 6` bytes for
/// `n` bytes of input, and decompresses to the input. It fails only when
/// that bound exceeds `u32::MAX`.
#[verifier::external_body]
fn compress_block(block: &[u8]) -> (r: Result<Vec<u8>, EncodeError>)
    ensures
        r is Ok <==> 32 + block@.len() + block@.len() / 6 <= u32::MAX,
        r matches Ok(v) ==> v@ == snappy_compressed(block@),
        r matches Ok(v) ==> v@.len() <= 32 + block@.len() + block@.len() / 6,
        r matches Ok(v) ==> snappy_decompressed(v@) == Some(block@),
{
    match snap::raw::Encoder::new().compress_vec(block) {
        Ok(v) => Ok(v),
        Err(_) => Err(EncodeError),
    }
}

/// Relies on `snap::raw::Decoder::decompress_vec`: decompresses one block,
/// and fails exactly on malformed input; the outcome depends on the input
/// alone.
#[verifier::external_body]
fn decompress_block(block: &[u8]) -> (r: Result<Vec<u8>, DecodeError>)
    ensures
        r is Ok <==> snappy_decompressed(block@) is Some,
        r matches Ok(v) ==> snappy_decompressed(block@) == Some(v@),
{
    match snap::raw::Decoder::new().decompress_vec(block) {
        Ok(v) => Ok(v),
        Err(_) => Err(DecodeError),
    }
}

/// The header that opens the framing.
pub open spec fn xerial_header() -> Seq<u8> {
    seq![130u8, 83, 78, 65, 80, 80, 89, 0, 0, 0, 0, 1, 0, 0, 0, 1]
}

/// The size of the next block of input: 32 KiB, or what is left.
pub open spec fn block_len(n: nat) -> nat {
    if n < 32768 {
        n
    } else {
        32768
    }
}

/// The framed blocks of `data`, each behind its compressed length.
pub open spec fn xerial_blocks(data: Seq<u8>) -> Seq<u8>
    decreases data.len(),
{
    if data.len() == 0 {
        Seq::empty()
    } else {
        let c = snappy_compressed(data.take(block_len(data.len()) as int));
        be32(c.len() as u32) + c + xerial_blocks(data.skip(block_len(data.len()) as int))
    }
}

/// Whether `s` opens with the framing's marker: byte 130, then `SNAPPY`.
pub open spec fn is_xerial(s: Seq<u8>) -> bool {
    s.len() >= 16 && s[0] == 130 && s.subrange(1, 7) =~= seq![83u8, 78, 65, 80, 80, 89]
}

/// The decompressed blocks of a framed body: blocks follow one another for as
/// long as four bytes of length are left, each must fit in what follows, and
/// each must decompress.
pub open spec fn xerial_unblocks(s: Seq<u8>) -> Option<Seq<u8>>
    decreases s.len(),
{
    if s.len() < 4 {
        Some(Seq::empty())
    } else {
        let size = from_be32(s.take(4)) as nat;
        if 4 + size > s.len() {
            None
        } else {
            match snappy_decompressed(s.subrange(4, (4 + size) as int)) {
                Some(d) => match xerial_unblocks(s.skip((4 + size) as int)) {
                    Some(rest) => Some(d + rest),
                    None => None,
                },
                None => None,
            }
        }
    }
}

/// What `data` decompresses to: the blocks of a framed body when it opens with
/// the framing's marker, else one bare Snappy block.
pub open spec fn snappy_unframed(data: Seq<u8>) -> Option<Seq<u8>> {
    if is_xerial(data) {
        xerial_unblocks(data.skip(16))
    } else {
        snappy_decompressed(data)
    }
}

/// Each block of `data`, as the framing cuts it, compresses to at most
/// `u32::MAX` bytes that decompress back to the block.
pub open spec fn blocks_invertible(data: Seq<u8>) -> bool
    decreases data.len(),
{
    if data.len() == 0 {
        true
    } else {
        let n = block_len(data.len());
        let c = snappy_compressed(data.take(n as int));
        &&& c.len() <= u32::MAX
        &&& snappy_decompressed(c) == Some(data.take(n as int))
        &&& blocks_invertible(data.skip(n as int))
    }
}

/// Framed blocks whose compression is invertible read back to the input.
proof fn lemma_unblocks_blocks(data: Seq<u8>)
    requires
        blocks_invertible(data),
    ensures
        xerial_unblocks(xerial_blocks(data)) == Some(data),
    decreases data.len(),
{
    if data.len() > 0 {
        let n = block_len(data.len());
        let b = data.take(n as int);
        let rest = data.skip(n as int);
        let c = snappy_compressed(b);
        let tail = xerial_blocks(rest);
        let s = xerial_blocks(data);
        lemma_unblocks_blocks(rest);
        lemma_be32(c.len() as u32);
        assert(s =~= be32(c.len() as u32) + c + tail);
        assert(s.take(4) =~= be32(c.len() as u32));
        assert(s.subrange(4, 4 + c.len() as int) =~= c);
        assert(s.skip(4 + c.len() as int) =~= tail);
        assert(b + rest =~= data);
    }
}

/// Snappy compression in the framing of Java clients.
#[derive(Debug, Clone, Copy, Default)]
pub struct Snappy;

impl Snappy {
    /// Compresses `data` block by block behind the framing's header; this
    /// always succeeds, and what it writes decompresses to `data`.
    pub fn compress(data: &[u8]) -> (r: Result<Vec<u8>, EncodeError>)
        ensures
            r is Ok,
            r matches Ok(v) ==> v@ == xerial_header() + xerial_blocks(data@),
            r matches Ok(v) ==> snappy_unframed(v@) == Some(data@),
    {
        let mut buf: Vec<u8> = Vec::new();
        buf.push(130);
        buf.push(83);
        buf.push(78);
        buf.push(65);
        buf.push(80);
        buf.push(80);
        buf.push(89);
        buf.push(0);
        buf.push(0);
        buf.push(0);
        buf.push(0);
        buf.push(1);
        buf.push(0);
        buf.push(0);
        buf.push(0);
        buf.push(1);
        assert(buf@ =~= xerial_header());
        let mut pos: usize = 0;
        assert(data@.skip(0) =~= data@);
        while pos < data.len()
            invariant
                pos <= data@.len(),
                buf@ + xerial_blocks(data@.skip(pos as int)) == xerial_header() + xerial_blocks(data@),
                blocks_invertible(data@.skip(pos as int)) ==> blocks_invertible(data@),
            decreases data@.len() - pos,
        {
            let ghost rest = data@.skip(pos as int);
            let n: usize = if data.len() - pos < 32768 {
                data.len() - pos
            } else {
                32768
            };
            assert(n == block_len(rest.len()));
            let block = &data[pos..pos + n];
            assert(block@ =~= rest.take(n as int));
            let c = match compress_block(block) {
                Ok(c) => c,
                Err(e) => {
                    assert(false);
                    return Err(e);
                },
            };
            assert(c@.len() <= u32::MAX);
            let ghost before = buf@;
            let len = c.len() as u32;
            put_u32(&mut buf, len);
            put_slice(&mut buf, c.as_slice());
            assert(rest.skip(n as int) =~= data@.skip(pos + n));
            assert(buf@ =~= before + (be32(len) + c@));
            assert(buf@ + xerial_blocks(data@.skip(pos + n)) =~= before + xerial_blocks(rest));
            pos = pos + n;
        }
        assert(data@.skip(pos as int) =~= Seq::<u8>::empty());
        assert(buf@ + Seq::<u8>::empty() =~= buf@);
        proof {
            lemma_unblocks_blocks(data@);
            assert(buf@.skip(16) =~= xerial_blocks(data@));
            assert(buf@.subrange(1, 7) =~= seq![83u8, 78, 65, 80, 80, 89]);
        }
        Ok(buf)
    }

    /// Whether `data` opens with the framing's marker.
    pub fn is_framed(data: &[u8]) -> (r: bool)
        ensures
            r == is_xerial(data@),
    {
        data.len() >= 16 && data[0] == 130 && data[1] == 83 && data[2] == 78 && data[3] == 65
            && data[4] == 80 && data[5] == 80 && data[6] == 89
    }

    /// Decompresses a framed body block by block, or a bare Snappy block when
    /// the framing's marker is missing.
    pub fn decompress(data: &[u8]) -> (r: Result<Vec<u8>, DecodeError>)
        ensures
            r is Ok <==> snappy_unframed(data@) is Some,
            r matches Ok(v) ==> snappy_unframed(data@) == Some(v@),
    {
        if !Self::is_framed(data) {
            return decompress_block(data);
        }
        let ghost s0 = data@.skip(16);
        let mut out: Vec<u8> = Vec::new();
        let mut pos: usize = 16;
        assert(data@.skip(pos as int) =~= s0);
        assert(out@ + Seq::<u8>::empty() =~= out@);
        while pos <= data.len() && data.len() - pos >= 4
            invariant
                16 <= pos <= data@.len(),
                is_xerial(data@),
                s0 == data@.skip(16),
                match xerial_unblocks(data@.skip(pos as int)) {
                    Some(rest) => xerial_unblocks(s0) == Some(out@ + rest),
                    None => xerial_unblocks(s0) is None,
                },
            decreases data@.len() - pos,
        {
            let ghost s = data@.skip(pos as int);
            let size = ((data[pos] as u32) << 24) | ((data[pos + 1] as u32) << 16) | ((data[pos
                + 2] as u32) << 8) | (data[pos + 3] as u32);
            let ghost t = s.take(4);
            assert(t[0] == data@[pos as int] && t[1] == data@[pos + 1] && t[2] == data@[pos + 2]
                && t[3] == data@[pos + 3]);
            assert(size == from_be32(t));
            if size as usize > data.len() - pos - 4 {
                assert(xerial_unblocks(s) is None);
                assert(snappy_unframed(data@) is None);
                return Err(DecodeError);
            }
            let start = pos + 4;
            let end = start + size as usize;
            let block = &data[start..end];
            assert(block@ =~= s.subrange(4, 4 + size as int));
            let d = match decompress_block(block) {
                Ok(d) => d,
                Err(e) => {
                    assert(xerial_unblocks(s) is None);
                    assert(snappy_unframed(data@) is None);
                    return Err(e);
                },
            };
            let ghost before = out@;
            put_slice(&mut out, d.as_slice());
            assert(s.skip(4 + size as int) =~= data@.skip(end as int));
            proof {
                if let Some(rest) = xerial_unblocks(data@.skip(end as int)) {
                    assert(before + (d@ + rest) =~= out@ + rest);
                }
            }
            pos = end;
        }
        assert(data@.skip(pos as int).len() < 4);
        assert(out@ + Seq::<u8>::empty() =~= out@);
        Ok(out)
    }
}

} // verus!
