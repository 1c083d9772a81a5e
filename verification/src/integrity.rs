//! The two integrity schemes a frame can carry: the classic 8-bit
//! wraparound additive checksum, and CRC-16/XMODEM (polynomial 0x1021,
//! initial value 0, no reflection), computed over the payload bytes only.
use vstd::prelude::*;

verus! {

/// Sum of the bytes modulo 256: the classic XMODEM checksum.
pub open spec fn sum256(s: Seq<u8>) -> u8
    decreases s.len(),
{
    if s.len() == 0 {
        0
    } else {
        ((sum256(s.drop_last()) + s.last()) % 256) as u8
    }
}

/// The CRC-16/XMODEM value of a byte sequence. Its value is fixed by the
/// polynomial division the outside implementation performs; only the facts
/// the trusted wrapper below states about it are assumed.
pub uninterp spec fn crc16_of(s: Seq<u8>) -> u16;

/// The 8-bit wraparound additive checksum of the data.
pub fn calc_checksum(data: &[u8]) -> (r: u8)
    ensures
        r == sum256(data@),
{
    let mut sum: u8 = 0;
    let mut i: usize = 0;
    while i < data.len()
        invariant
            i <= data@.len(),
            sum == sum256(data@.take(i as int)),
        decreases data@.len() - i,
    {
        proof {
            assert(data@.take(i + 1).drop_last() =~= data@.take(i as int));
            assert(data@.take(i + 1).last() == data@[i as int]);
        }
        sum = sum.wrapping_add(data[i]);
        i = i + 1;
    }
    proof {
        assert(data@.take(data@.len() as int) =~= data@);
    }
    sum
}

/// Relies on `crc16::State::<crc16::XMODEM>::calculate`: the CRC-16/XMODEM
/// value of the data, a function of the bytes alone.
#[verifier::external_body]
pub(crate) fn calc_crc(data: &[u8]) -> (r: u16)
    ensures
        r == crc16_of(data@),
{
    crc16::State::<crc16::XMODEM>::calculate(data)
}

} // verus!
