use vstd::prelude::*;
use vstd::string::StringSliceAdditionalSpecFns;

verus! {

/// The polynomial of CRC-8/LTE, x^8 + x^7 + x^4 + x^3 + x + 1, without its
/// top bit.
pub const CRC8_LTE_POLY: u8 = 0x9b;

/// One shift of the checksum register: the top bit leaves on the left, and
/// where it was set the polynomial is added.
pub open spec fn crc8_shift(value: u8) -> u8 {
    if value >= 0x80 {
        (value << 1) ^ CRC8_LTE_POLY
    } else {
        value << 1
    }
}

/// `n` shifts of the checksum register.
pub open spec fn crc8_shifts(value: u8, n: nat) -> u8
    decreases n,
{
    if n == 0 {
        value
    } else {
        crc8_shift(crc8_shifts(value, (n - 1) as nat))
    }
}

/// The CRC-8/LTE checksum of a byte sequence: the register starts at zero,
/// each byte is added to it and shifted through in eight steps, top bit
/// first; nothing is reflected and nothing is added at the end.
pub open spec fn crc8_lte(bytes: Seq<u8>) -> u8
    decreases bytes.len(),
{
    if bytes.len() == 0 {
        0
    } else {
        crc8_shifts(crc8_lte(bytes.drop_last()) ^ bytes.last(), 8)
    }
}

/// Calls `crc::Crc::<u8>::checksum` with the catalogue's `CRC_8_LTE` algorithm.
/// Trusted: the table the crate looks each byte up in holds, for every
/// register value, that value after eight shifts, so the result is the
/// CRC-8/LTE checksum of exactly the bytes handed in; the call does not panic.
#[verifier::external_body]
fn crc8_checksum(bytes: &[u8]) -> (sum: u8)
    ensures
        sum == crc8_lte(bytes@),
{
    crc::Crc::<u8>::new(&crc::CRC_8_LTE).checksum(bytes)
}

/// An 8-bit content hash of a name: the CRC-8/LTE checksum of its UTF-8 bytes.
pub fn hash(option: &str) -> (sum: u8)
    ensures
        sum == crc8_lte(option.spec_bytes()),
{
    crc8_checksum(option.as_bytes())
}

} // verus!
