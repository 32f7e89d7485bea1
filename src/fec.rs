//! Reed-Solomon block coding and CRC-32, provided by outside crates.
use vstd::prelude::*;

verus! {

/// Data bytes in one Reed-Solomon block.
pub const REED_SOLOMON_BLOCK_LEN: usize = 10;

/// Parity bytes appended to each Reed-Solomon block.
pub const ECC_LEN: usize = 8;

/// Bytes in one coded block: data followed by parity.
pub const CODED_BLOCK_LEN: usize = 18;

/// The number of positions at which `a` and `b` differ, over the length of
/// `a`.
pub open spec fn differing(a: Seq<u8>, b: Seq<u8>) -> nat
    decreases a.len(),
{
    if a.len() == 0 {
        0
    } else {
        (if a.last() != b[a.len() - 1] {
            1nat
        } else {
            0nat
        }) + differing(a.drop_last(), b.take(a.len() - 1))
    }
}

/// A sequence differs from itself nowhere.
pub proof fn lemma_differing_self(a: Seq<u8>)
    ensures
        differing(a, a) == 0,
    decreases a.len(),
{
    if a.len() > 0 {
        assert(a.take(a.len() - 1) =~= a.drop_last());
        lemma_differing_self(a.drop_last());
    }
}

/// The parity that the Reed-Solomon encoder computes for a block of data.
pub uninterp spec fn rs_parity(data: Seq<u8>) -> Seq<u8>;

/// What the Reed-Solomon decoder makes of a coded block: the corrected data,
/// or `None` where the block holds too many errors.
pub uninterp spec fn rs_corrected(block: Seq<u8>) -> Option<Seq<u8>>;

/// The CRC-32 (IEEE polynomial) of a byte sequence.
pub uninterp spec fn crc32_ieee(bytes: Seq<u8>) -> u32;

/// Relies on `reed_solomon::Encoder::encode` with `ECC_LEN` parity bytes: the
/// result is systematic, the data followed by `ECC_LEN` parity bytes that
/// depend on the data alone.
#[verifier::external_body]
pub fn rs_encode_block(data: &[u8]) -> (r: Vec<u8>)
    requires
        data@.len() == REED_SOLOMON_BLOCK_LEN,
    ensures
        r@ == data@ + rs_parity(data@),
        r@.len() == CODED_BLOCK_LEN,
{
    reed_solomon::Encoder::new(ECC_LEN).encode(data).to_vec()
}

/// Relies on `reed_solomon::Decoder::correct` with `ECC_LEN` parity bytes and
/// no known erasures. What the encoder produces is a codeword (the crate's
/// documentation shows `is_corrupted` false on it). A block that differs from
/// a codeword in at most `ECC_LEN / 2` bytes is corrected to it: the
/// Berlekamp-Massey locator then has degree at most `ECC_LEN / 2`, the Chien
/// search finds its roots, Forney's formula the magnitudes, and the final
/// syndrome check passes. Any block it accepts comes back as
/// `REED_SOLOMON_BLOCK_LEN` data bytes.
#[verifier::external_body]
pub fn rs_correct_block(block: &[u8]) -> (r: Option<Vec<u8>>)
    requires
        block@.len() == CODED_BLOCK_LEN,
    ensures
        r is Some == rs_corrected(block@) is Some,
        r is Some ==> r->0@ == rs_corrected(block@)->0,
        r is Some ==> r->0@.len() == REED_SOLOMON_BLOCK_LEN,
        forall|d: Seq<u8>|
            d.len() == REED_SOLOMON_BLOCK_LEN && differing(block@, d + #[trigger] rs_parity(d))
                <= ECC_LEN / 2 ==> r is Some
                && r->0@ == d,
{
    match reed_solomon::Decoder::new(ECC_LEN).correct(block, None) {
        Ok(buffer) => Some(buffer.data().to_vec()),
        Err(_) => None,
    }
}

/// Relies on `crc::crc32::checksum_ieee`: the CRC-32 of the bytes, IEEE
/// polynomial.
#[verifier::external_body]
pub fn crc32_checksum(bytes: &[u8]) -> (r: u32)
    ensures
        r == crc32_ieee(bytes@),
{
    crc::crc32::checksum_ieee(bytes)
}

} // verus!
