use bytes::{ByteOrder, LittleEndian};
use vstd::prelude::*;

verus! {

/// The number that the first four bytes of `b` spell, least significant byte
/// first.
pub open spec fn le_value(b: Seq<u8>) -> nat
    recommends
        b.len() >= 4,
{
    (b[0] as nat) + 256 * (b[1] as nat) + 65536 * (b[2] as nat) + 16777216 * (b[3] as nat)
}

/// The four bytes that spell `n`, least significant byte first.
pub open spec fn le_bytes(n: nat) -> Seq<u8>
    recommends
        n <= u32::MAX,
{
    seq![
        (n % 256) as u8,
        ((n / 256) % 256) as u8,
        ((n / 65536) % 256) as u8,
        ((n / 16777216) % 256) as u8,
    ]
}

/// The length that the prefix of a message can carry for a payload of `len`
/// bytes: the length itself as long as it fits in 32 bits.
pub open spec fn prefix_value(len: nat) -> nat {
    len % 4294967296
}

/// A message on the wire: the payload's length in four bytes, least
/// significant first, and then the payload.
pub open spec fn encode(payload: Seq<u8>) -> Seq<u8> {
    le_bytes(prefix_value(payload.len())) + payload
}

/// Four bytes written for a number read back as that number.
pub proof fn lemma_le_round_trip(n: nat)
    requires
        n <= u32::MAX,
    ensures
        le_bytes(n).len() == 4,
        le_value(le_bytes(n)) == n,
{
}

/// `bytes::LittleEndian::read_u32` (the `ByteOrder` method that `bytes` hands
/// on): reads the first four bytes of `buf` as an unsigned 32-bit number,
/// least significant byte first. It panics on fewer than four bytes, which
/// the precondition rules out.
#[verifier::external_body]
pub(crate) fn read_u32_le(buf: &[u8]) -> (n: u32)
    requires
        buf@.len() >= 4,
    ensures
        n == le_value(buf@),
{
    LittleEndian::read_u32(buf)
}

/// `bytes::LittleEndian::write_u32` (the `ByteOrder` method that `bytes` hands
/// on), called on a buffer of exactly four bytes: fills it with `n`, least
/// significant byte first.
#[verifier::external_body]
pub(crate) fn write_u32_le(n: u32) -> (buf: [u8; 4])
    ensures
        buf@ == le_bytes(n as nat),
{
    let mut buf: [u8; 4] = [0; 4];
    LittleEndian::write_u32(&mut buf, n);
    buf
}

/// Puts the payload's length in front of it, in four bytes, least significant
/// first. A length beyond 32 bits is cut to its low 32 bits.
pub fn len_encode_bytes(to_write: Vec<u8>) -> (framed: Vec<u8>)
    ensures
        framed@ == encode(to_write@),
{
    let len: usize = to_write.len();
    let wide: u64 = len as u64;
    let low: u32 = (wide % 4294967296) as u32;
    let len_buf: [u8; 4] = write_u32_le(low);
    let mut framed: Vec<u8> = Vec::new();
    framed.extend_from_slice(vstd::array::array_as_slice(&len_buf));
    framed.extend_from_slice(to_write.as_slice());
    framed
}

} // verus!
