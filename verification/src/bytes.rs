//! Little-endian integers in byte strings: what they are, writing them at the
//! end of a buffer and reading them at an offset.
use vstd::prelude::*;

verus! {

/// The two bytes of `x`, least significant first.
#[verifier::opaque]
pub open spec fn u16_le(x: u16) -> Seq<u8> {
    seq![(x % 0x100) as u8, (x / 0x100) as u8]
}

/// The four bytes of `x`, least significant first.
#[verifier::opaque]
pub open spec fn u32_le(x: u32) -> Seq<u8> {
    seq![
        (x % 0x100) as u8,
        (x / 0x100 % 0x100) as u8,
        (x / 0x1_0000 % 0x100) as u8,
        (x / 0x100_0000) as u8,
    ]
}

/// The eight bytes of `x`, least significant first.
#[verifier::opaque]
pub open spec fn u64_le(x: u64) -> Seq<u8> {
    u32_le((x % 0x1_0000_0000) as u32) + u32_le((x / 0x1_0000_0000) as u32)
}

/// The little-endian integer in the two bytes of `s` from `at`.
#[verifier::opaque]
pub open spec fn u16_at(s: Seq<u8>, at: int) -> u16 {
    (s[at] + 0x100 * s[at + 1]) as u16
}

/// The little-endian integer in the four bytes of `s` from `at`.
#[verifier::opaque]
pub open spec fn u32_at(s: Seq<u8>, at: int) -> u32 {
    (s[at] + 0x100 * s[at + 1] + 0x1_0000 * s[at + 2] + 0x100_0000 * s[at + 3]) as u32
}

/// The little-endian integer in the eight bytes of `s` from `at`.
#[verifier::opaque]
pub open spec fn u64_at(s: Seq<u8>, at: int) -> u64 {
    (u32_at(s, at) + 0x1_0000_0000 * u32_at(s, at + 4)) as u64
}

/// An integer has a fixed number of bytes.
pub broadcast proof fn lemma_u16_len(x: u16)
    ensures
        #[trigger] u16_le(x).len() == 2,
{
    reveal(u16_le);
}

/// An integer has a fixed number of bytes.
pub broadcast proof fn lemma_u32_len(x: u32)
    ensures
        #[trigger] u32_le(x).len() == 4,
{
    reveal(u32_le);
}

/// An integer has a fixed number of bytes.
pub broadcast proof fn lemma_u64_len(x: u64)
    ensures
        #[trigger] u64_le(x).len() == 8,
{
    reveal(u64_le);
    lemma_u32_len((x % 0x1_0000_0000) as u32);
    lemma_u32_len((x / 0x1_0000_0000) as u32);
}

/// How many bytes integers have.
pub broadcast group group_le_len {
    lemma_u16_len,
    lemma_u32_len,
    lemma_u64_len,
}

/// A byte string that holds the bytes of `x` at `at` reads as `x` there.
pub proof fn lemma_u16_at(s: Seq<u8>, at: int, x: u16)
    requires
        0 <= at,
        at + 2 <= s.len(),
        s.subrange(at, at + 2) == u16_le(x),
    ensures
        u16_at(s, at) == x,
{
    reveal(u16_le);
    reveal(u16_at);
    let w = s.subrange(at, at + 2);
    assert(w[0] == s[at] && w[1] == s[at + 1]);
}

/// A byte string that holds the bytes of `x` at `at` reads as `x` there.
pub proof fn lemma_u32_at(s: Seq<u8>, at: int, x: u32)
    requires
        0 <= at,
        at + 4 <= s.len(),
        s.subrange(at, at + 4) == u32_le(x),
    ensures
        u32_at(s, at) == x,
{
    reveal(u32_le);
    reveal(u32_at);
    let w = s.subrange(at, at + 4);
    assert(w[0] == s[at] && w[1] == s[at + 1] && w[2] == s[at + 2] && w[3] == s[at + 3]);
    let y = x as int / 0x100;
    let z = y / 0x100;
    assert(x as int / 0x1_0000 == z && x as int / 0x100_0000 == z / 0x100);
    assert(x == 0x100 * y + x % 0x100);
    assert(y == 0x100 * z + y % 0x100);
    assert(z == 0x100 * (z / 0x100) + z % 0x100);
}

/// A byte string that holds the bytes of `x` at `at` reads as `x` there.
pub proof fn lemma_u64_at(s: Seq<u8>, at: int, x: u64)
    requires
        0 <= at,
        at + 8 <= s.len(),
        s.subrange(at, at + 8) == u64_le(x),
    ensures
        u64_at(s, at) == x,
{
    reveal(u64_le);
    reveal(u64_at);
    let low = (x % 0x1_0000_0000) as u32;
    let high = (x / 0x1_0000_0000) as u32;
    let w = s.subrange(at, at + 8);
    lemma_u32_len(low);
    lemma_u32_len(high);
    assert(s.subrange(at, at + 4) =~= u32_le(low)) by {
        assert(s.subrange(at, at + 4) =~= w.subrange(0, 4));
    }
    assert(s.subrange(at + 4, at + 8) =~= u32_le(high)) by {
        assert(s.subrange(at + 4, at + 8) =~= w.subrange(4, 8));
    }
    lemma_u32_at(s, at, low);
    lemma_u32_at(s, at + 4, high);
}

/// A byte string that starts with `front + back` starts with `front` and goes
/// on with `back`.
pub proof fn lemma_split(s: Seq<u8>, front: Seq<u8>, back: Seq<u8>)
    requires
        (front + back).len() <= s.len(),
        s.subrange(0, (front + back).len() as int) == front + back,
    ensures
        s.subrange(0, front.len() as int) == front,
        s.subrange(front.len() as int, (front + back).len() as int) == back,
{
    let whole = s.subrange(0, (front + back).len() as int);
    assert(s.subrange(0, front.len() as int) =~= whole.subrange(0, front.len() as int));
    assert(whole.subrange(0, front.len() as int) =~= front);
    assert(s.subrange(front.len() as int, (front + back).len() as int) =~= whole.subrange(
        front.len() as int,
        (front + back).len() as int,
    ));
    assert(whole.subrange(front.len() as int, (front + back).len() as int) =~= back);
}

/// A byte string that holds `front + back` at `at` holds `front` there and
/// `back` behind it.
pub proof fn lemma_split_at(s: Seq<u8>, at: int, front: Seq<u8>, back: Seq<u8>)
    requires
        0 <= at,
        at + (front + back).len() <= s.len(),
        s.subrange(at, at + (front + back).len()) == front + back,
    ensures
        s.subrange(at, at + front.len()) == front,
        s.subrange(at + front.len(), at + front.len() + back.len()) == back,
{
    let whole = s.subrange(at, at + (front + back).len());
    assert(s.subrange(at, at + front.len()) =~= whole.subrange(0, front.len() as int));
    assert(whole.subrange(0, front.len() as int) =~= front);
    assert(s.subrange(at + front.len(), at + front.len() + back.len()) =~= whole.subrange(
        front.len() as int,
        (front + back).len() as int,
    ));
    assert(whole.subrange(front.len() as int, (front + back).len() as int) =~= back);
}

/// What follows a byte string does not change the integers in it.
pub proof fn lemma_at_prefix(s: Seq<u8>, tail: Seq<u8>, at: int)
    requires
        0 <= at,
    ensures
        at + 2 <= s.len() ==> u16_at(s + tail, at) == u16_at(s, at),
        at + 4 <= s.len() ==> u32_at(s + tail, at) == u32_at(s, at),
        at + 8 <= s.len() ==> u64_at(s + tail, at) == u64_at(s, at),
{
    reveal(u16_at);
    reveal(u32_at);
    reveal(u64_at);
}

/// Appends the bytes of `value`.
pub fn push_u16(output: &mut Vec<u8>, value: u16)
    ensures
        final(output)@ == old(output)@ + u16_le(value),
{
    proof {
        reveal(u16_le);
    }
    output.push((value % 0x100) as u8);
    output.push((value / 0x100) as u8);
    assert(output@ =~= old(output)@ + u16_le(value));
}

/// Appends the bytes of `value`.
pub fn push_u32(output: &mut Vec<u8>, value: u32)
    ensures
        final(output)@ == old(output)@ + u32_le(value),
{
    proof {
        reveal(u32_le);
    }
    output.push((value % 0x100) as u8);
    output.push((value / 0x100 % 0x100) as u8);
    output.push((value / 0x1_0000 % 0x100) as u8);
    output.push((value / 0x100_0000) as u8);
    assert(output@ =~= old(output)@ + u32_le(value));
}

/// Appends the bytes of `value`.
pub fn push_u64(output: &mut Vec<u8>, value: u64)
    ensures
        final(output)@ == old(output)@ + u64_le(value),
{
    proof {
        reveal(u64_le);
    }
    push_u32(output, (value % 0x1_0000_0000) as u32);
    push_u32(output, (value / 0x1_0000_0000) as u32);
    assert(output@ =~= old(output)@ + u64_le(value));
}

/// Appends `bytes`.
pub fn push_bytes(output: &mut Vec<u8>, bytes: &[u8])
    ensures
        final(output)@ == old(output)@ + bytes@,
{
    output.extend_from_slice(bytes);
    assert(output@ =~= old(output)@ + bytes@);
}

/// `n` zero bytes.
pub open spec fn zeros(n: nat) -> Seq<u8> {
    Seq::new(n, |i: int| 0u8)
}

/// Appends `n` zero bytes.
pub fn push_zeros(output: &mut Vec<u8>, n: usize)
    ensures
        final(output)@ == old(output)@ + zeros(n as nat),
{
    let mut done: usize = 0;
    while done < n
        invariant
            done <= n,
            output@ == old(output)@ + zeros(done as nat),
        decreases n - done,
    {
        output.push(0);
        done = done + 1;
        assert(output@ =~= old(output)@ + zeros(done as nat));
    }
    assert(output@ =~= old(output)@ + zeros(n as nat));
}

/// The integer in the two bytes from `at`.
pub fn u16_from(bytes: &[u8], at: usize) -> (value: u16)
    requires
        at + 2 <= bytes@.len(),
    ensures
        value == u16_at(bytes@, at as int),
{
    proof {
        reveal(u16_at);
    }
    bytes[at] as u16 + 0x100 * (bytes[at + 1] as u16)
}

/// The integer in the four bytes from `at`.
pub fn u32_from(bytes: &[u8], at: usize) -> (value: u32)
    requires
        at + 4 <= bytes@.len(),
    ensures
        value == u32_at(bytes@, at as int),
{
    proof {
        reveal(u32_at);
    }
    bytes[at] as u32 + 0x100 * (bytes[at + 1] as u32) + 0x1_0000 * (bytes[at + 2] as u32)
        + 0x100_0000 * (bytes[at + 3] as u32)
}

/// The integer in the eight bytes from `at`.
pub fn u64_from(bytes: &[u8], at: usize) -> (value: u64)
    requires
        at + 8 <= bytes@.len(),
    ensures
        value == u64_at(bytes@, at as int),
{
    proof {
        reveal(u64_at);
    }
    assert(bytes@.len() == bytes.len());
    let low: u64 = u32_from(bytes, at) as u64;
    let high: u64 = u32_from(bytes, at + 4) as u64;
    low + 0x1_0000_0000 * high
}

/// Whether the `n` bytes from `at` are all zero.
pub fn all_zero(bytes: &[u8], at: usize, n: usize) -> (zero: bool)
    requires
        at + n <= bytes@.len(),
    ensures
        zero == (bytes@.subrange(at as int, at + n) == zeros(n as nat)),
{
    let mut i: usize = 0;
    while i < n
        invariant
            i <= n,
            at + n <= bytes@.len(),
            bytes@.len() == bytes.len(),
            forall|k: int| at <= k < at + i ==> bytes@[k] == 0,
        decreases n - i,
    {
        if bytes[at + i] != 0 {
            assert(bytes@.subrange(at as int, at + n)[i as int] != zeros(n as nat)[i as int]);
            return false;
        }
        i = i + 1;
    }
    assert(bytes@.subrange(at as int, at + n) =~= zeros(n as nat));
    true
}

/// Whether two byte strings are equal.
pub fn same_bytes(left: &[u8], right: &[u8]) -> (same: bool)
    ensures
        same == (left@ == right@),
{
    if left.len() != right.len() {
        return false;
    }
    let mut i: usize = 0;
    while i < left.len()
        invariant
            i <= left@.len(),
            left@.len() == right@.len(),
            forall|k: int| 0 <= k < i ==> left@[k] == right@[k],
        decreases left@.len() - i,
    {
        if left[i] != right[i] {
            return false;
        }
        i = i + 1;
    }
    assert(left@ =~= right@);
    true
}

/// A copy of `bytes`.
pub fn copy_bytes(bytes: &[u8]) -> (copy: Vec<u8>)
    ensures
        copy@ == bytes@,
{
    let mut copy: Vec<u8> = Vec::new();
    push_bytes(&mut copy, bytes);
    assert(copy@ =~= bytes@);
    copy
}

} // verus!
