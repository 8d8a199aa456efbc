//! Reading and writing the fields of records and table entries.

use vstd::prelude::*;
use crate::record::{
    blank,
    digest_from,
    digest_step,
    le32,
    le32_bytes,
};

verus! {

/// Reads the little-endian number in the four bytes of `b` from `at` on.
pub fn get_le32(b: &[u8], at: usize) -> (x: u32)
    requires
        at + 4 <= b@.len(),
    ensures
        x == le32(b@, at as int),
{
    let b0: u32 = b[at] as u32;
    let b1: u32 = b[at + 1] as u32;
    let b2: u32 = b[at + 2] as u32;
    let b3: u32 = b[at + 3] as u32;
    b0 + b1 * 256 + b2 * 65536 + b3 * 16777216
}

/// Appends the four little-endian bytes of `x` to `buf`.
pub fn push_le32(buf: &mut Vec<u8>, x: u32)
    ensures
        final(buf)@ == old(buf)@ + le32_bytes(x as nat),
{
    buf.push((x % 256) as u8);
    buf.push(((x / 256) % 256) as u8);
    buf.push(((x / 65536) % 256) as u8);
    buf.push(((x / 16777216) % 256) as u8);
    assert(buf@ =~= old(buf)@ + le32_bytes(x as nat));
}

/// Folds `data` into the digest `h`.
pub fn digest_more(h: u32, data: &[u8]) -> (r: u32)
    ensures
        r == digest_from(h as nat, data@),
{
    let mut acc: u32 = h;
    let mut i: usize = 0;
    assert(data@.take(0) =~= Seq::<u8>::empty());
    while i < data.len()
        invariant
            i <= data@.len(),
            acc == digest_from(h as nat, data@.take(i as int)),
        decreases data@.len() - i,
    {
        let next: u64 = (acc as u64 * 31 + data[i] as u64 + 1) % 0x1_0000_0000;
        proof {
            assert(data@.take(i + 1).drop_last() =~= data@.take(i as int));
            assert(data@.take(i + 1).last() == data@[i as int]);
            assert(next == digest_step(acc as nat, data@[i as int]));
        }
        acc = next as u32;
        i = i + 1;
    }
    assert(data@.take(i as int) =~= data@);
    acc
}

/// Whether two runs of bytes are the same.
pub fn same_bytes(a: &[u8], b: &[u8]) -> (r: bool)
    ensures
        r == (a@ == b@),
{
    if a.len() != b.len() {
        return false;
    }
    let mut i: usize = 0;
    while i < a.len()
        invariant
            i <= a@.len(),
            a@.len() == b@.len(),
            forall|k: int| 0 <= k < i ==> a@[k] == b@[k],
        decreases a@.len() - i,
    {
        if a[i] != b[i] {
            return false;
        }
        i = i + 1;
    }
    assert(a@ =~= b@);
    true
}

/// Whether every byte of `v` is an erased cell's.
pub fn all_erased(v: &[u8]) -> (r: bool)
    ensures
        r == blank(v@, 0, v@.len() as int),
{
    let mut i: usize = 0;
    while i < v.len()
        invariant
            i <= v@.len(),
            blank(v@, 0, i as int),
        decreases v@.len() - i,
    {
        if v[i] != 0xFF {
            return false;
        }
        i = i + 1;
    }
    true
}

/// The bytes of `v` in `[from, to)`.
pub fn copy_range(v: &[u8], from: usize, to: usize) -> (r: Vec<u8>)
    requires
        from <= to <= v@.len(),
    ensures
        r@ == v@.subrange(from as int, to as int),
{
    let mut out: Vec<u8> = Vec::new();
    let mut i: usize = from;
    while i < to
        invariant
            from <= i <= to <= v@.len(),
            out@.len() == i - from,
            forall|k: int| 0 <= k < i - from ==> out@[k] == v@[from + k],
        decreases to - i,
    {
        out.push(v[i]);
        i = i + 1;
    }
    assert(out@ =~= v@.subrange(from as int, to as int));
    out
}

} // verus!
