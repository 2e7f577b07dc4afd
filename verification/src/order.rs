//! Byte-order-parameterized reads and writes of 32-bit words, the single
//! decoder every header and record access goes through, together with the
//! round-trip laws that relate reading and writing.

use crate::model::ByteOrder;
use vstd::bytes::{
    lemma_auto_spec_u32_to_from_le_bytes, spec_u32_from_le_bytes, spec_u32_to_le_bytes,
    u32_from_le_bytes, u32_to_le_bytes,
};
use vstd::prelude::*;
use vstd::seq_lib::*;

verus! {

/// The four bytes of `s` starting at `i`, reversed.
pub open spec fn rev4(s: Seq<u8>) -> Seq<u8>
    recommends
        s.len() == 4,
{
    seq![s[3], s[2], s[1], s[0]]
}

/// The 32-bit word held by `s` at offsets `i .. i + 4`, read in order `o`.
pub open spec fn u32_at(s: Seq<u8>, i: int, o: ByteOrder) -> u32
    recommends
        0 <= i,
        i + 4 <= s.len(),
{
    match o {
        ByteOrder::Little => spec_u32_from_le_bytes(s.subrange(i, i + 4)),
        ByteOrder::Big => spec_u32_from_le_bytes(rev4(s.subrange(i, i + 4))),
    }
}

/// The four bytes that serialize `x` in order `o`.
pub open spec fn u32_bytes(x: u32, o: ByteOrder) -> Seq<u8> {
    match o {
        ByteOrder::Little => spec_u32_to_le_bytes(x),
        ByteOrder::Big => rev4(spec_u32_to_le_bytes(x)),
    }
}

/// Signed reinterpretation of a 32-bit word: the value of the same bits
/// read as a two's-complement signed integer.
pub open spec fn i32_of_u32(u: u32) -> i32 {
    if u < 0x80000000 {
        u as i32
    } else {
        (u - 0x100000000) as i32
    }
}

/// Serializing a word and reading it back, in either order, yields the word;
/// and `u32_bytes` always yields exactly four bytes.
pub proof fn lemma_u32_bytes_round_trip(x: u32, o: ByteOrder)
    ensures
        u32_bytes(x, o).len() == 4,
        u32_at(u32_bytes(x, o), 0, o) == x,
{
    lemma_auto_spec_u32_to_from_le_bytes();
    let b = u32_bytes(x, o);
    match o {
        ByteOrder::Little => {
            assert(b.subrange(0, 4) =~= b);
        },
        ByteOrder::Big => {
            assert(b.subrange(0, 4) =~= b);
            assert(rev4(rev4(spec_u32_to_le_bytes(x))) =~= spec_u32_to_le_bytes(x));
        },
    }
}

/// Reading a word out of a buffer and serializing it again, in the same
/// order, reproduces exactly the four bytes it was read from.
pub proof fn lemma_u32_read_then_write(s: Seq<u8>, i: int, o: ByteOrder)
    requires
        0 <= i,
        i + 4 <= s.len(),
    ensures
        u32_bytes(u32_at(s, i, o), o) == s.subrange(i, i + 4),
{
    lemma_auto_spec_u32_to_from_le_bytes();
    let w = s.subrange(i, i + 4);
    match o {
        ByteOrder::Little => {
            assert(u32_bytes(u32_at(s, i, o), o) =~= w);
        },
        ByteOrder::Big => {
            assert(rev4(w).len() == 4);
            assert(spec_u32_to_le_bytes(spec_u32_from_le_bytes(rev4(w))) == rev4(w));
            assert(rev4(rev4(w)) =~= w);
        },
    }
}

/// Read the 32-bit word at `off` in order `o`.
pub fn read_u32_at(data: &Vec<u8>, off: usize, o: ByteOrder) -> (x: u32)
    requires
        off + 4 <= data@.len(),
    ensures
        x == u32_at(data@, off as int, o),
{
    let n = data.len();
    assert(off + 4 <= n);
    let mut word: Vec<u8> = Vec::new();
    match o {
        ByteOrder::Little => {
            word.push(data[off]);
            word.push(data[off + 1]);
            word.push(data[off + 2]);
            word.push(data[off + 3]);
            proof {
                assert(word@ =~= data@.subrange(off as int, off as int + 4));
            }
        },
        ByteOrder::Big => {
            word.push(data[off + 3]);
            word.push(data[off + 2]);
            word.push(data[off + 1]);
            word.push(data[off]);
            proof {
                assert(word@ =~= rev4(data@.subrange(off as int, off as int + 4)));
            }
        },
    }
    u32_from_le_bytes(word.as_slice())
}

/// Append the four bytes of `x`, in order `o`, to `out`.
pub fn push_u32(out: &mut Vec<u8>, x: u32, o: ByteOrder)
    ensures
        final(out)@ == old(out)@ + u32_bytes(x, o),
{
    proof {
        lemma_auto_spec_u32_to_from_le_bytes();
    }
    let le = u32_to_le_bytes(x);
    match o {
        ByteOrder::Little => {
            out.push(le[0]);
            out.push(le[1]);
            out.push(le[2]);
            out.push(le[3]);
            proof {
                assert(out@ =~= old(out)@ + spec_u32_to_le_bytes(x));
            }
        },
        ByteOrder::Big => {
            out.push(le[3]);
            out.push(le[2]);
            out.push(le[1]);
            out.push(le[0]);
            proof {
                assert(out@ =~= old(out)@ + rev4(spec_u32_to_le_bytes(x)));
            }
        },
    }
}

/// Reinterpret a 32-bit word as a signed value without changing its bits.
pub fn u32_as_i32(u: u32) -> (r: i32)
    ensures
        r == i32_of_u32(u),
{
    if u < 0x80000000 {
        u as i32
    } else {
        let d = u - 0x80000000;
        i32::MIN + (d as i32)
    }
}

} // verus!
