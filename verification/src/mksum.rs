use vstd::prelude::*;
use vstd::slice::slice_subrange;

use blake2::digest::{Update, VariableOutput};
use blake2::Blake2bVar;

use crate::rollsum::{spec_digest, win_state, Rollsum, Window};
use crate::DEFAULT_BLOCK_LEN;

verus! {

/// The format tag at the head of a signature stream. One format is defined:
/// the rolling checksum paired with a truncated Blake2b strong hash.
#[derive(Debug, Copy, Clone)]
pub enum SignatureFormat {
    Blake2Sig,
}

/// The native output length of the strong hash, and so the largest number
/// of strong-hash bytes a record can retain.
pub const RS_MAX_STRONG_SUM_LENGTH: usize = 32;

/// The 32-bit wire value of a format tag.
pub open spec fn spec_magic(f: SignatureFormat) -> u32 {
    match f {
        SignatureFormat::Blake2Sig => 0x72730137,
    }
}

impl SignatureFormat {
    /// The 32-bit wire value written at the head of the signature stream.
    pub fn to_u32(&self) -> (v: u32)
        ensures
            v == spec_magic(*self),
    {
        match self {
            SignatureFormat::Blake2Sig => 0x72730137,
        }
    }
}

/// Configuration for signature generation: the format tag, the number of
/// input bytes summarized by one record, and how many strong-hash bytes
/// each record retains.
#[derive(Debug, Copy, Clone)]
pub struct SignatureOptions {
    pub magic: SignatureFormat,
    pub block_len: u32,
    pub strong_len: u32,
}

/// Options a signature can actually be generated under: blocks are never
/// empty and the strong hash cannot be truncated to more than it has.
pub open spec fn spec_options_valid(o: SignatureOptions) -> bool {
    &&& o.block_len >= 1
    &&& o.strong_len <= RS_MAX_STRONG_SUM_LENGTH
}

impl SignatureOptions {
    /// The stock configuration: 2048-byte blocks, the full 32-byte strong
    /// hash per record.
    pub fn default() -> (o: SignatureOptions)
        ensures
            o == (SignatureOptions {
                magic: SignatureFormat::Blake2Sig,
                block_len: DEFAULT_BLOCK_LEN,
                strong_len: RS_MAX_STRONG_SUM_LENGTH as u32,
            }),
            spec_options_valid(o),
    {
        SignatureOptions {
            magic: SignatureFormat::Blake2Sig,
            block_len: DEFAULT_BLOCK_LEN,
            strong_len: RS_MAX_STRONG_SUM_LENGTH as u32,
        }
    }

    /// The same options with the strong-hash length replaced.
    pub fn with_strong_len(self, s: u32) -> (o: SignatureOptions)
        ensures
            o.magic == self.magic,
            o.block_len == self.block_len,
            o.strong_len == s,
    {
        SignatureOptions { strong_len: s, ..self }
    }
}

/// A 32-bit value as the four bytes of its big-endian encoding.
pub open spec fn be32(x: u32) -> Seq<u8> {
    seq![
        (x / 0x1000000) as u8,
        ((x / 0x10000) % 0x100) as u8,
        ((x / 0x100) % 0x100) as u8,
        (x % 0x100) as u8,
    ]
}

/// The 32-byte Blake2b digest of a byte sequence. Its value is fixed by
/// the Blake2b function itself; this library only calls it.
pub uninterp spec fn blake2b_32(data: Seq<u8>) -> Seq<u8>;

/// Relies on blake2's `Blake2bVar`: `new(32)` accepts any output size up
/// to 64 bytes, `update` absorbs the input, and `finalize_variable` fills
/// a buffer of exactly the configured size, so neither `unwrap` can fail.
/// The digest depends on the input bytes alone.
#[verifier::external_body]
fn strong_digest_32(data: &[u8]) -> (r: Vec<u8>)
    ensures
        r@ == blake2b_32(data@),
        r@.len() == RS_MAX_STRONG_SUM_LENGTH,
{
    let mut hasher = Blake2bVar::new(RS_MAX_STRONG_SUM_LENGTH).unwrap();
    hasher.update(data);
    let mut d = [0u8; RS_MAX_STRONG_SUM_LENGTH];
    hasher.finalize_variable(&mut d).unwrap();
    d.to_vec()
}

/// The weak digest of one block: the rolling checksum of a fresh window
/// fed the whole block at once.
pub open spec fn spec_weak(block: Seq<u8>) -> u32 {
    spec_digest(win_state(block))
}

/// One signature record: the block's weak digest, big-endian, followed by
/// the first `strong_len` bytes of its strong hash.
pub open spec fn spec_record(block: Seq<u8>, strong_len: int) -> Seq<u8> {
    be32(spec_weak(block)) + blake2b_32(block).take(strong_len)
}

/// The records of a signature stream: one per `block_len`-sized block of
/// the input, in input order, the last block possibly shorter but never
/// empty.
pub open spec fn spec_records(input: Seq<u8>, block_len: int, strong_len: int) -> Seq<u8>
    recommends
        block_len >= 1,
    decreases input.len(),
{
    if block_len < 1 || input.len() == 0 {
        Seq::empty()
    } else if input.len() <= block_len {
        spec_record(input, strong_len)
    } else {
        spec_record(input.take(block_len), strong_len) + spec_records(
            input.skip(block_len),
            block_len,
            strong_len,
        )
    }
}

/// How many records an input of `n` bytes yields: one per started block.
pub open spec fn spec_num_blocks(n: int, block_len: int) -> int
    recommends
        block_len >= 1,
    decreases n,
{
    if block_len < 1 || n <= 0 {
        0
    } else if n <= block_len {
        1
    } else {
        1 + spec_num_blocks(n - block_len, block_len)
    }
}

/// The 12-byte signature header: magic, block length and strong-hash
/// length, each big-endian.
pub open spec fn spec_header(o: SignatureOptions) -> Seq<u8> {
    be32(spec_magic(o.magic)) + be32(o.block_len) + be32(o.strong_len)
}

/// A whole signature stream: the header followed by the records.
pub open spec fn spec_signature(input: Seq<u8>, o: SignatureOptions) -> Seq<u8> {
    spec_header(o) + spec_records(input, o.block_len as int, o.strong_len as int)
}

/// Append a 32-bit value to the output in big-endian byte order.
fn write_u32be(out: &mut Vec<u8>, x: u32)
    ensures
        final(out)@ == old(out)@ + be32(x),
{
    proof {
        assert(x / 0x1000000 < 0x100) by (nonlinear_arith)
            requires
                x <= 0xffffffffu32,
        ;
    }
    out.push((x / 0x1000000) as u8);
    out.push(((x / 0x10000) % 0x100) as u8);
    out.push(((x / 0x100) % 0x100) as u8);
    out.push((x % 0x100) as u8);
    proof {
        assert(out@ =~= old(out)@ + be32(x));
    }
}

/// The serialized signature record for one block: its weak digest followed
/// by the first `strong_len` bytes of its strong hash.
pub fn block_record(block: &[u8], strong_len: u32) -> (rec: Vec<u8>)
    requires
        strong_len <= RS_MAX_STRONG_SUM_LENGTH,
    ensures
        rec@ == spec_record(block@, strong_len as int),
        rec@.len() == 4 + strong_len,
{
    let mut rec: Vec<u8> = Vec::new();
    let mut rs = Window::new();
    rs.update(block);
    write_u32be(&mut rec, rs.digest());
    let d = strong_digest_32(block);
    let n = strong_len as usize;
    let mut j: usize = 0;
    while j < n
        invariant
            n <= RS_MAX_STRONG_SUM_LENGTH,
            d@ == blake2b_32(block@),
            d@.len() == RS_MAX_STRONG_SUM_LENGTH,
            j <= n,
            rec@ == be32(spec_weak(block@)) + d@.take(j as int),
        decreases n - j,
    {
        let b = d[j];
        rec.push(b);
        proof {
            assert(d@.take(j + 1) =~= d@.take(j as int).push(d@[j as int]));
            assert(rec@ =~= be32(spec_weak(block@)) + d@.take(j + 1));
        }
        j = j + 1;
    }
    rec
}

/// The serialized 12-byte signature header for the given options.
pub fn header_bytes(options: &SignatureOptions) -> (h: Vec<u8>)
    ensures
        h@ == spec_header(*options),
        h@.len() == 12,
{
    let mut h: Vec<u8> = Vec::new();
    write_u32be(&mut h, options.magic.to_u32());
    write_u32be(&mut h, options.block_len);
    write_u32be(&mut h, options.strong_len);
    proof {
        assert(h@ =~= spec_header(*options));
    }
    h
}

/// Compute the whole signature of an in-memory input: the header, then one
/// record per `block_len`-sized block, in input order, the final block
/// possibly shorter. An empty input yields the header alone; an input of
/// an exact multiple of `block_len` yields no empty trailing record.
pub fn generate_signature(basis: &[u8], options: &SignatureOptions) -> (sig: Vec<u8>)
    requires
        spec_options_valid(*options),
    ensures
        sig@ == spec_signature(basis@, *options),
        sig@.len() == 12 + spec_num_blocks(basis@.len() as int, options.block_len as int) * (4
            + options.strong_len),
{
    let ghost ilen = basis@.len() as int;
    let ghost lg = options.block_len as int;
    let ghost sg = options.strong_len as int;
    let mut sig = header_bytes(options);
    let block_len = options.block_len as usize;
    let mut pos: usize = 0;
    let ghost mut built: Seq<u8> = Seq::empty();
    let ghost mut nb: int = 0;
    proof {
        assert(sig@ =~= spec_header(*options) + built);
        assert(basis@.skip(0) =~= basis@);
        assert(built + spec_records(basis@, lg, sg) =~= spec_records(basis@, lg, sg));
    }
    while pos < basis.len()
        invariant
            spec_options_valid(*options),
            block_len == options.block_len as usize,
            pos <= basis@.len(),
            sig@ == spec_header(*options) + built,
            spec_records(basis@, lg, sg) == built + spec_records(basis@.skip(pos as int), lg, sg),
            sig@.len() == 12 + nb * (4 + sg),
            spec_num_blocks(ilen, lg) == nb + spec_num_blocks(ilen - pos, lg),
            ilen == basis@.len(),
            lg == options.block_len as int,
            sg == options.strong_len as int,
        decreases basis@.len() - pos,
    {
        let remaining = basis.len() - pos;
        let this_len = if remaining < block_len {
            remaining
        } else {
            block_len
        };
        let end = pos + this_len;
        let chunk = slice_subrange(basis, pos, end);
        let mut rec = block_record(chunk, options.strong_len);
        proof {
            let rem = basis@.skip(pos as int);
            if remaining <= block_len {
                assert(chunk@ =~= rem);
                assert(basis@.skip(end as int) =~= Seq::<u8>::empty());
                assert(spec_records(rem, lg, sg) == spec_record(rem, sg));
            } else {
                assert(chunk@ =~= rem.take(lg));
                assert(rem.skip(lg) =~= basis@.skip(end as int));
            }
            built = built + spec_record(chunk@, sg);
            assert((nb + 1) * (4 + sg) == nb * (4 + sg) + (4 + sg)) by (nonlinear_arith);
            nb = nb + 1;
        }
        sig.append(&mut rec);
        pos = end;
    }
    proof {
        assert(basis@.skip(pos as int) =~= Seq::<u8>::empty());
        assert(sig@ =~= spec_signature(basis@, *options));
    }
    sig
}

/// Multi-block chunking: an input two whole blocks long plus a proper
/// remainder yields exactly three records, and an input of exactly one
/// block length yields exactly one — never a trailing empty record.
pub proof fn lemma_block_counts(block_len: int, r: int)
    requires
        block_len >= 1,
        0 < r < block_len,
    ensures
        spec_num_blocks(2 * block_len + r, block_len) == 3,
        spec_num_blocks(block_len, block_len) == 1,
{
    assert(spec_num_blocks(2 * block_len + r, block_len) == 1 + spec_num_blocks(
        block_len + r,
        block_len,
    ));
    assert(spec_num_blocks(block_len + r, block_len) == 1 + spec_num_blocks(r, block_len));
    assert(spec_num_blocks(r, block_len) == 1);
}

} // verus!
