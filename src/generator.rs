use vstd::prelude::*;

use vstd::arithmetic::div_mod::{lemma_add_mod_noop, lemma_mod_add_multiples_vanish};
use vstd::slice::slice_subrange;

use crate::receiver::block;

verus! {

/// A byte as the signed value that the weak checksum adds.
pub open spec fn signed_byte(b: u8) -> int {
    if b < 128 { b as int } else { b as int - 256 }
}

/// The sum of the signed bytes of `s`.
pub open spec fn sum1(s: Seq<u8>) -> int
    decreases s.len(),
{
    if s.len() == 0 {
        0
    } else {
        sum1(s.drop_last()) + signed_byte(s.last())
    }
}

/// The sum of `sum1` over every non-empty prefix of `s`.
pub open spec fn sum2(s: Seq<u8>) -> int
    decreases s.len(),
{
    if s.len() == 0 {
        0
    } else {
        sum2(s.drop_last()) + sum1(s)
    }
}

/// The weak block checksum: the low 16 bits of `sum1` below the low 16 bits of `sum2`.
pub open spec fn weak_checksum(s: Seq<u8>) -> int {
    sum1(s) % 0x1_0000 + (sum2(s) % 0x1_0000) * 0x1_0000
}

/// Computes the weak checksum of a block.
pub fn block_weak_checksum(buf: &[u8]) -> (r: u32)
    ensures
        r as int == weak_checksum(buf@),
{
    let mut s1: u32 = 0;
    let mut s2: u32 = 0;
    let mut i: usize = 0;
    assert(buf@.subrange(0, 0) =~= Seq::<u8>::empty());
    while i < buf.len()
        invariant
            i <= buf@.len(),
            s1 < 0x1_0000,
            s2 < 0x1_0000,
            s1 as int == sum1(buf@.subrange(0, i as int)) % 0x1_0000,
            s2 as int == sum2(buf@.subrange(0, i as int)) % 0x1_0000,
        decreases buf@.len() - i,
    {
        let b = buf[i];
        let adj: u32 = if b < 128 { b as u32 } else { b as u32 + 0xFF00 };
        let ghost p = buf@.subrange(0, i as int);
        let ghost q = buf@.subrange(0, i + 1);
        proof {
            assert(q.drop_last() =~= p);
            lemma_mod_add_multiples_vanish(signed_byte(b), 0x1_0000);
            assert(signed_byte(b) % 0x1_0000 == adj as int);
            lemma_add_mod_noop(sum1(p), signed_byte(b), 0x1_0000);
            lemma_add_mod_noop(sum2(p), sum1(q), 0x1_0000);
        }
        s1 = (s1 + adj) % 0x1_0000;
        s2 = (s2 + s1) % 0x1_0000;
        i = i + 1;
    }
    assert(buf@.subrange(0, buf@.len() as int) =~= buf@);
    s1 + s2 * 0x1_0000
}

/// Entry `i` of `sums` is the weak checksum of block `i` of `data`, which begins inside it.
pub open spec fn sum_of_block(data: Seq<u8>, block_len: nat, sums: Seq<u32>, i: int) -> bool {
    &&& i * block_len < data.len()
    &&& sums[i] as int == weak_checksum(block(data, block_len, i as nat))
}

/// The weak checksum of every block of `data`, in order, the last block
/// possibly shorter: as many as it takes to cover `data`.
pub fn block_weak_sums(data: &[u8], block_len: u32) -> (r: Vec<u32>)
    requires
        block_len > 0,
    ensures
        r@.len() * block_len >= data@.len(),
        forall|i: int| 0 <= i < r@.len() ==> #[trigger] sum_of_block(data@, block_len as nat, r@, i),
{
    let mut sums: Vec<u32> = Vec::new();
    let mut start: usize = 0;
    let bl = block_len as usize;
    assert(sums@.len() * block_len == 0);
    while start < data.len()
        invariant
            bl == block_len,
            block_len > 0,
            start <= data@.len(),
            sums@.len() * block_len == start || (start == data@.len() && sums@.len() * block_len >= data@.len()),
            forall|i: int| 0 <= i < sums@.len() ==> #[trigger] sum_of_block(data@, block_len as nat, sums@, i),
        decreases data@.len() - start,
    {
        let end: usize = if data.len() - start >= bl { start + bl } else { data.len() };
        let w = block_weak_checksum(slice_subrange(data, start, end));
        let ghost k = sums@.len() as int;
        let ghost old_sums = sums@;
        assert(k * block_len == start);
        assert(block(data@, block_len as nat, k as nat) == data@.subrange(start as int, end as int));
        sums.push(w);
        proof {
            assert((k + 1) * block_len == k * block_len + block_len) by (nonlinear_arith);
            assert forall|i: int| 0 <= i < sums@.len() implies #[trigger] sum_of_block(data@, block_len as nat, sums@, i) by {
                if i < k {
                    assert(sum_of_block(data@, block_len as nat, old_sums, i));
                    assert(sums@[i] == old_sums[i]);
                }
            }
        }
        start = end;
    }
    sums
}

/// The header of a file's block signatures: how many blocks, their length,
/// the length of each strong checksum, and the length of the last block.
#[derive(Clone, Copy, Debug, PartialEq, Eq, Structural)]
pub struct SumHead {
    pub count: u32,
    pub block_len: u32,
    pub strong_len: u32,
    pub remainder: u32,
}

/// Four bytes, least significant first.
pub open spec fn le32(n: u32) -> Seq<u8> {
    seq![(n % 0x100) as u8, (n / 0x100 % 0x100) as u8, (n / 0x1_0000 % 0x100) as u8, (n / 0x100_0000 % 0x100) as u8]
}

/// The wire form of a signature header: its four fields in order.
pub open spec fn sum_head_bytes(h: SumHead) -> Seq<u8> {
    le32(h.count) + le32(h.block_len) + le32(h.strong_len) + le32(h.remainder)
}

fn push_u32(out: &mut Vec<u8>, n: u32)
    ensures
        final(out)@ == old(out)@ + le32(n),
{
    out.push((n % 0x100) as u8);
    out.push((n / 0x100 % 0x100) as u8);
    out.push((n / 0x1_0000 % 0x100) as u8);
    out.push((n / 0x100_0000 % 0x100) as u8);
    assert(final(out)@ =~= old(out)@ + le32(n));
}

impl SumHead {
    /// The header that says no local data exists: the server sends the whole file.
    pub fn empty() -> (r: SumHead)
        ensures
            r.count == 0 && r.block_len == 0 && r.strong_len == 0 && r.remainder == 0,
    {
        SumHead { count: 0, block_len: 0, strong_len: 0, remainder: 0 }
    }

    /// The header for existing data of `file_len` bytes cut in blocks of
    /// `block_len` bytes, the last one possibly shorter.
    pub fn for_file(file_len: u32, block_len: u32, strong_len: u32) -> (r: SumHead)
        requires
            block_len > 0,
        ensures
            r.count as int == (file_len as int + block_len as int - 1) / block_len as int,
            r.block_len == block_len,
            r.strong_len == strong_len,
            r.remainder as int == file_len as int % block_len as int,
    {
        let full = file_len / block_len;
        let rem = file_len % block_len;
        if rem != 0 {
            assert(full < u32::MAX) by (nonlinear_arith)
                requires
                    block_len >= 2,
                    full == file_len / block_len,
                    file_len <= u32::MAX,
            ;
        }
        let count = if rem == 0 { full } else { full + 1 };
        proof {
            let f = file_len as int;
            let b = block_len as int;
            assert(f == (f / b) * b + f % b) by (nonlinear_arith)
                requires
                    b > 0,
            ;
            assert((f + b - 1) / b == if f % b == 0 { f / b } else { f / b + 1 }) by (nonlinear_arith)
                requires
                    b > 0,
                    f >= 0,
                    f == (f / b) * b + f % b,
                    0 <= f % b < b,
            ;
        }
        SumHead { count, block_len, strong_len, remainder: rem }
    }

    /// Encodes the header for the wire.
    pub fn encode(&self) -> (r: Vec<u8>)
        ensures
            r@ == sum_head_bytes(*self),
    {
        let mut out: Vec<u8> = Vec::new();
        push_u32(&mut out, self.count);
        push_u32(&mut out, self.block_len);
        push_u32(&mut out, self.strong_len);
        push_u32(&mut out, self.remainder);
        assert(out@ =~= sum_head_bytes(*self));
        out
    }
}

} // verus!
