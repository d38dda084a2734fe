//! Little-endian word access over in-memory byte buffers.
//!
//! Both container formats store every integer as a little-endian `u32`;
//! this module gives the readers and writers for those words together with
//! the sequence-level spec functions the codec contracts are stated over.

use vstd::prelude::*;
use vstd::bytes::*;
use vstd::slice::slice_subrange;

verus! {

/// The little-endian 32-bit word stored at byte offset `pos` of `b`.
pub open spec fn word_at(b: Seq<u8>, pos: int) -> u32 {
    spec_u32_from_le_bytes(b.subrange(pos, pos + 4))
}

/// The four little-endian bytes of `v`.
pub open spec fn w32(v: u32) -> Seq<u8> {
    spec_u32_to_le_bytes(v)
}

/// A byte offset clamped into the 32-bit range error payloads carry.
#[verifier::opaque]
pub open spec fn off32(x: int) -> u32 {
    if x > u32::MAX {
        u32::MAX
    } else if x < 0 {
        0u32
    } else {
        x as u32
    }
}

/// A run of `n` zero bytes.
pub open spec fn zeros(n: int) -> Seq<u8> {
    Seq::new(n as nat, |i: int| 0u8)
}

/// Clamps an offset into the 32-bit range error payloads carry.
pub fn off32_of(x: u64) -> (r: u32)
    ensures
        r == off32(x as int),
{
    proof {
        reveal(off32);
    }
    if x > u32::MAX as u64 {
        u32::MAX
    } else {
        x as u32
    }
}

/// Reading four bytes that stand at `pos` of a larger buffer gives the word
/// written there.
pub proof fn lemma_word_at_of_w32(b: Seq<u8>, pos: int, v: u32)
    requires
        0 <= pos,
        pos + 4 <= b.len(),
        b.subrange(pos, pos + 4) == w32(v),
    ensures
        word_at(b, pos) == v,
{
    lemma_auto_spec_u32_to_from_le_bytes();
    assert(spec_u32_to_le_bytes(v).len() == 4
        && spec_u32_from_le_bytes(spec_u32_to_le_bytes(v)) == v);
    assert(word_at(b, pos) == spec_u32_from_le_bytes(w32(v)));
}

/// Reads the little-endian 32-bit word at byte offset `pos`.
pub fn read_u32_le(b: &Vec<u8>, pos: usize) -> (r: u32)
    requires
        pos + 4 <= b@.len(),
    ensures
        r == word_at(b@, pos as int),
{
    let n = b.len();
    assert(pos + 4 <= n);
    let s = slice_subrange(b.as_slice(), pos, pos + 4);
    u32_from_le_bytes(s)
}

/// Appends the four little-endian bytes of `v`.
pub fn put_u32_le(out: &mut Vec<u8>, v: u32)
    ensures
        final(out)@ == old(out)@ + w32(v),
{
    let mut bs = u32_to_le_bytes(v);
    out.append(&mut bs);
}

/// Overwrites the four bytes at `pos` with the little-endian bytes of `v`,
/// leaving every other byte as it was.
pub fn write_u32_at(out: &mut Vec<u8>, pos: usize, v: u32)
    requires
        pos + 4 <= old(out)@.len(),
    ensures
        final(out)@.len() == old(out)@.len(),
        final(out)@.subrange(pos as int, pos as int + 4) == w32(v),
        forall|i: int| 0 <= i < old(out)@.len() && !(pos <= i < pos + 4)
            ==> final(out)@[i] == old(out)@[i],
{
    let bs = u32_to_le_bytes(v);
    proof { lemma_auto_spec_u32_to_from_le_bytes(); }
    let n = out.len();
    assert(pos + 4 <= n);
    out[pos] = bs[0];
    out[pos + 1] = bs[1];
    out[pos + 2] = bs[2];
    out[pos + 3] = bs[3];
    proof {
        assert(out@.subrange(pos as int, pos as int + 4) =~= w32(v));
    }
}

/// Appends `n` zero bytes.
pub fn put_zeros(out: &mut Vec<u8>, n: usize)
    ensures
        final(out)@ == old(out)@ + zeros(n as int),
{
    let mut i: usize = 0;
    while i < n
        invariant
            i <= n,
            out@ == old(out)@ + zeros(i as int),
        decreases n - i,
    {
        out.push(0);
        proof {
            assert(old(out)@ + zeros(i as int) + seq![0u8]
                =~= old(out)@ + zeros(i as int + 1));
        }
        i = i + 1;
    }
}

/// True when the bytes of `m` stand at offset `pos` of `b`.
pub fn bytes_eq_at(b: &Vec<u8>, pos: usize, m: &Vec<u8>) -> (r: bool)
    requires
        pos + m@.len() <= b@.len(),
    ensures
        r == (b@.subrange(pos as int, pos as int + m@.len() as int) == m@),
{
    let n = m.len();
    let lenb = b.len();
    let mut i: usize = 0;
    while i < n
        invariant
            i <= n,
            n == m@.len(),
            lenb == b@.len(),
            pos + n <= lenb,
            forall|j: int| 0 <= j < i ==> b@[pos + j] == m@[j],
        decreases n - i,
    {
        if b[pos + i] != m[i] {
            proof {
                assert(b@.subrange(pos as int, pos as int + n) != m@) by {
                    assert(b@.subrange(pos as int, pos as int + n)[i as int]
                        == b@[pos + i]);
                }
            }
            return false;
        }
        i = i + 1;
    }
    proof {
        assert(b@.subrange(pos as int, pos as int + n) =~= m@);
    }
    true
}

} // verus!
