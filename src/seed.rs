use vstd::prelude::*;

verus! {

/// The unsigned value of four bytes read least significant first.
pub open spec fn le_u32(b: Seq<u8>) -> int {
    b[0] as int + b[1] as int * 0x100 + b[2] as int * 0x1_0000 + b[3] as int * 0x100_0000
}

/// The signed 32-bit integer whose two's-complement little-endian form is `b`.
pub open spec fn le_i32(b: Seq<u8>) -> int {
    if le_u32(b) < 0x8000_0000 {
        le_u32(b)
    } else {
        le_u32(b) - 0x1_0000_0000
    }
}

/// Decodes the checksum seed that the server sends once the option block is read.
pub fn decode_seed(b: [u8; 4]) -> (r: i32)
    ensures
        r as int == le_i32(b@),
{
    let u: u32 = b[0] as u32 + b[1] as u32 * 0x100 + b[2] as u32 * 0x1_0000 + b[3] as u32 * 0x100_0000;
    if u < 0x8000_0000 {
        u as i32
    } else {
        ((u - 0x8000_0000) as i32) - i32::MAX - 1
    }
}

} // verus!
