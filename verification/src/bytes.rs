//! Little-endian integers and small helpers on byte sequences.
use vstd::prelude::*;

verus! {

/// The two bytes that encode `x`, least significant first.
#[verifier::opaque]
pub open spec fn u16_le(x: u16) -> Seq<u8> {
    seq![(x % 256) as u8, (x / 256) as u8]
}

/// The four bytes that encode `x`, least significant first.
#[verifier::opaque]
pub open spec fn u32_le(x: u32) -> Seq<u8> {
    seq![
        (x % 256) as u8,
        ((x / 0x100) % 256) as u8,
        ((x / 0x1_0000) % 256) as u8,
        (x / 0x100_0000) as u8,
    ]
}

/// The eight bytes that encode `x`, least significant first.
#[verifier::opaque]
pub open spec fn u64_le(x: u64) -> Seq<u8> {
    u32_le((x % 0x1_0000_0000) as u32) + u32_le((x / 0x1_0000_0000) as u32)
}

/// The length of an encoded number.
pub broadcast proof fn lemma_u16_le_len(x: u16)
    ensures
        #[trigger] u16_le(x).len() == 2,
{
    reveal(u16_le);
}

/// The length of an encoded number.
pub broadcast proof fn lemma_u32_le_len(x: u32)
    ensures
        #[trigger] u32_le(x).len() == 4,
{
    reveal(u32_le);
}

/// The length of an encoded number.
pub broadcast proof fn lemma_u64_le_len(x: u64)
    ensures
        #[trigger] u64_le(x).len() == 8,
{
    reveal(u32_le);
    reveal(u64_le);
}

pub broadcast group group_le_len {
    lemma_u16_le_len,
    lemma_u32_le_len,
    lemma_u64_le_len,
}

/// The number that the first two bytes of `s` encode.
#[verifier::opaque]
pub open spec fn le_u16(s: Seq<u8>) -> u16 {
    (s[0] + s[1] * 0x100) as u16
}

/// The number that the first four bytes of `s` encode.
#[verifier::opaque]
pub open spec fn le_u32(s: Seq<u8>) -> u32 {
    (s[0] + s[1] * 0x100 + s[2] * 0x1_0000 + s[3] * 0x100_0000) as u32
}

/// The number that the first eight bytes of `s` encode.
#[verifier::opaque]
pub open spec fn le_u64(s: Seq<u8>) -> u64 {
    (le_u32(s) + le_u32(s.skip(4)) * 0x1_0000_0000) as u64
}

/// Reading back what `u16_le` wrote gives the number.
pub proof fn law_u16_round_trip(x: u16)
    ensures
        u16_le(x).len() == 2,
        le_u16(u16_le(x)) == x,
{
    broadcast use group_le_len;

    reveal(u16_le);
    reveal(le_u16);
}

/// Reading back what `u32_le` wrote gives the number.
pub proof fn law_u32_round_trip(x: u32)
    ensures
        u32_le(x).len() == 4,
        le_u32(u32_le(x)) == x,
{
    broadcast use group_le_len;

    reveal(u32_le);
    reveal(le_u32);
}

/// Reading back what `u64_le` wrote gives the number.
pub proof fn law_u64_round_trip(x: u64)
    ensures
        u64_le(x).len() == 8,
        le_u64(u64_le(x)) == x,
{
    broadcast use group_le_len;

    reveal(u64_le);
    reveal(le_u64);
    let low = (x % 0x1_0000_0000) as u32;
    let high = (x / 0x1_0000_0000) as u32;
    law_u32_round_trip(low);
    law_u32_round_trip(high);
    assert(u64_le(x).skip(4) =~= u32_le(high));
    lemma_prefix_decides(u32_le(low), u32_le(high));
}

/// Two bytes are the encoding of the number that they encode.
pub proof fn law_le_u16_bytes(s: Seq<u8>)
    requires
        s.len() == 2,
    ensures
        u16_le(le_u16(s)) == s,
{
    reveal(u16_le);
    reveal(le_u16);
    assert(u16_le(le_u16(s)) =~= s);
}

/// Four bytes are the encoding of the number that they encode.
pub proof fn law_le_u32_bytes(s: Seq<u8>)
    requires
        s.len() == 4,
    ensures
        u32_le(le_u32(s)) == s,
{
    reveal(u32_le);
    reveal(le_u32);
    assert(u32_le(le_u32(s)) =~= s);
}

/// Eight bytes are the encoding of the number that they encode.
pub proof fn law_le_u64_bytes(s: Seq<u8>)
    requires
        s.len() == 8,
    ensures
        u64_le(le_u64(s)) == s,
{
    broadcast use group_le_len;

    reveal(u64_le);
    reveal(le_u64);
    reveal(le_u32);
    let low = s.take(4);
    let high = s.skip(4);
    law_le_u32_bytes(low);
    law_le_u32_bytes(high);
    let value = le_u64(s);
    assert(le_u32(s) == le_u32(low));
    assert(value % 0x1_0000_0000 == le_u32(low));
    assert(value / 0x1_0000_0000 == le_u32(high));
    assert(low + high =~= s);
}

/// Appends the encoding of `x`.
pub fn push_u16(out: &mut Vec<u8>, x: u16)
    ensures
        final(out)@ == old(out)@ + u16_le(x),
{
    proof {
        reveal(u16_le);
    }
    out.push((x % 256) as u8);
    out.push((x / 256) as u8);
    assert(out@ =~= old(out)@ + u16_le(x));
}

/// Appends the encoding of `x`.
pub fn push_u32(out: &mut Vec<u8>, x: u32)
    ensures
        final(out)@ == old(out)@ + u32_le(x),
{
    proof {
        reveal(u32_le);
    }
    out.push((x % 256) as u8);
    out.push(((x / 0x100) % 256) as u8);
    out.push(((x / 0x1_0000) % 256) as u8);
    out.push((x / 0x100_0000) as u8);
    assert(out@ =~= old(out)@ + u32_le(x));
}

/// Appends the encoding of `x`.
pub fn push_u64(out: &mut Vec<u8>, x: u64)
    ensures
        final(out)@ == old(out)@ + u64_le(x),
{
    proof {
        reveal(u64_le);
    }
    push_u32(out, (x % 0x1_0000_0000) as u32);
    push_u32(out, (x / 0x1_0000_0000) as u32);
    assert(out@ =~= old(out)@ + u64_le(x));
}

/// The number encoded at `at`.
pub fn read_u16(input: &[u8], at: usize) -> (x: u16)
    requires
        at + 2 <= input@.len(),
    ensures
        x == le_u16(input@.skip(at as int)),
{
    proof {
        reveal(le_u16);
    }
    input[at] as u16 + input[at + 1] as u16 * 0x100
}

/// The number encoded at `at`.
pub fn read_u32(input: &[u8], at: usize) -> (x: u32)
    requires
        at + 4 <= input@.len(),
    ensures
        x == le_u32(input@.skip(at as int)),
{
    proof {
        reveal(le_u32);
    }
    input[at] as u32 + input[at + 1] as u32 * 0x100 + input[at + 2] as u32 * 0x1_0000
        + input[at + 3] as u32 * 0x100_0000
}

/// The number encoded at `at`.
pub fn read_u64(input: &[u8], at: usize) -> (x: u64)
    requires
        at + 8 <= input@.len(),
    ensures
        x == le_u64(input@.skip(at as int)),
{
    proof {
        reveal(le_u64);
    }
    assert(at + 8 <= input.len());
    let low: u32 = read_u32(input, at);
    let high: u32 = read_u32(input, at + 4);
    assert(input@.skip(at as int).skip(4) =~= input@.skip(at + 4));
    low as u64 + high as u64 * 0x1_0000_0000
}

/// A decoder looks only at the bytes it needs.
pub proof fn lemma_prefix_decides(s: Seq<u8>, t: Seq<u8>)
    ensures
        s.len() >= 2 ==> le_u16(s + t) == le_u16(s),
        s.len() >= 4 ==> le_u32(s + t) == le_u32(s),
        s.len() >= 8 ==> le_u64(s + t) == le_u64(s),
{
    reveal(le_u16);
    reveal(le_u32);
    reveal(le_u64);
    if s.len() >= 8 {
        assert((s + t).skip(4) =~= s.skip(4) + t);
    }
}

/// Joining sequences does not depend on the order in which they are joined.
pub proof fn lemma_concat_associative<A>(first: Seq<A>, second: Seq<A>, third: Seq<A>)
    ensures
        (first + second) + third == first + (second + third),
{
    assert((first + second) + third =~= first + (second + third));
}

/// Whether two byte slices hold the same bytes.
pub fn same_bytes(left: &[u8], right: &[u8]) -> (same: bool)
    ensures
        same == (left@ == right@),
{
    if left.len() != right.len() {
        return false;
    }
    let mut index: usize = 0;
    while index < left.len()
        invariant
            index <= left@.len(),
            left@.len() == right@.len(),
            forall|i: int| 0 <= i < index ==> left@[i] == right@[i],
        decreases left@.len() - index,
    {
        if left[index] != right[index] {
            return false;
        }
        index += 1;
    }
    assert(left@ =~= right@);
    true
}

} // verus!
