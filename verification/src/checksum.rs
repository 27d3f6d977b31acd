//! The Jenkins lookup3 checksum of metadata blocks.

use crate::bytes::from_le;
use vstd::prelude::*;

verus! {

/// `x` rotated left by `k` bits.
pub open spec fn rotated(x: u32, k: u32) -> u32 {
    (x << k) | (x >> ((32 - k) as u32))
}

fn rotate(x: u32, k: u32) -> (r: u32)
    requires
        0 < k < 32,
    ensures
        r == rotated(x, k),
{
    (x << k) | (x >> (32 - k))
}

/// The three words of the running state.
pub struct Lookup3 {
    pub a: u32,
    pub b: u32,
    pub c: u32,
}

/// One step of `mix`: subtract, fold in a rotation, add.
pub open spec fn mix_step(x: u32, y: u32, z: u32, k: u32) -> (u32, u32) {
    (x.wrapping_sub(z) ^ rotated(z, k), z.wrapping_add(y))
}

/// The state after a full block of twelve bytes is mixed.
pub open spec fn mixed(s: Lookup3) -> Lookup3 {
    let (a, c) = mix_step(s.a, s.b, s.c, 4);
    let (b, a) = mix_step(s.b, c, a, 6);
    let (c, b) = mix_step(c, a, b, 8);
    let (a, c) = mix_step(a, b, c, 16);
    let (b, a) = mix_step(b, c, a, 19);
    let (c, b) = mix_step(c, a, b, 4);
    Lookup3 { a, b, c }
}

/// One step of the closing mix.
pub open spec fn close_step(x: u32, y: u32, k: u32) -> u32 {
    (x ^ y).wrapping_sub(rotated(y, k))
}

/// The checksum that a state closes with.
pub open spec fn closed_with(s: Lookup3) -> u32 {
    let c = close_step(s.c, s.b, 14);
    let a = close_step(s.a, c, 11);
    let b = close_step(s.b, a, 25);
    let c = close_step(c, b, 16);
    let a = close_step(a, c, 4);
    let b = close_step(b, a, 14);
    close_step(c, b, 24)
}

/// The byte at `i`, zero past the end.
pub open spec fn byte_or_zero(s: Seq<u8>, i: int) -> u32 {
    if 0 <= i < s.len() {
        s[i] as u32
    } else {
        0
    }
}

/// The little-endian word at `i`, zero past the end.
pub open spec fn word_at(s: Seq<u8>, i: int) -> u32 {
    (byte_or_zero(s, i) + byte_or_zero(s, i + 1) * 0x100 + byte_or_zero(s, i + 2) * 0x1_0000
        + byte_or_zero(s, i + 3) * 0x100_0000) as u32
}

/// The state with the twelve bytes at `i` added.
pub open spec fn absorbed(s: Seq<u8>, i: int, st: Lookup3) -> Lookup3 {
    Lookup3 {
        a: st.a.wrapping_add(word_at(s, i)),
        b: st.b.wrapping_add(word_at(s, i + 4)),
        c: st.c.wrapping_add(word_at(s, i + 8)),
    }
}

/// The checksum of `s[i..]` from a state.
pub open spec fn lookup3_from(s: Seq<u8>, i: int, st: Lookup3) -> u32
    decreases s.len() - i,
{
    if i >= s.len() {
        st.c
    } else if s.len() - i > 12 {
        lookup3_from(s, i + 12, mixed(absorbed(s, i, st)))
    } else {
        closed_with(absorbed(s, i, st))
    }
}

/// The lookup3 checksum of `s`, with initial value zero.
pub open spec fn lookup3(s: Seq<u8>) -> u32 {
    let seed = 0xdead_beefu32.wrapping_add((s.len() % 0x1_0000_0000) as u32);
    lookup3_from(s, 0, Lookup3 { a: seed, b: seed, c: seed })
}

fn byte_at(s: &[u8], i: usize, j: usize) -> (r: u32)
    requires
        i <= s@.len(),
        j <= 11,
    ensures
        r == byte_or_zero(s@, i + j),
        r <= 255,
{
    if j < s.len() - i {
        s[i + j] as u32
    } else {
        0
    }
}

fn read_word(s: &[u8], i: usize, j: usize) -> (r: u32)
    requires
        i <= s@.len(),
        j <= 8,
    ensures
        r == word_at(s@, i + j),
{
    byte_at(s, i, j) + byte_at(s, i, j + 1) * 0x100 + byte_at(s, i, j + 2) * 0x1_0000 + byte_at(
        s,
        i,
        j + 3,
    ) * 0x100_0000
}

fn absorb(s: &[u8], i: usize, st: Lookup3) -> (r: Lookup3)
    requires
        i <= s@.len(),
    ensures
        r == absorbed(s@, i as int, st),
{
    Lookup3 {
        a: st.a.wrapping_add(read_word(s, i, 0)),
        b: st.b.wrapping_add(read_word(s, i, 4)),
        c: st.c.wrapping_add(read_word(s, i, 8)),
    }
}

fn step(x: u32, y: u32, z: u32, k: u32) -> (r: (u32, u32))
    requires
        0 < k < 32,
    ensures
        r == mix_step(x, y, z, k),
{
    (x.wrapping_sub(z) ^ rotate(z, k), z.wrapping_add(y))
}

fn mix(s: Lookup3) -> (r: Lookup3)
    ensures
        r == mixed(s),
{
    let (a, c) = step(s.a, s.b, s.c, 4);
    let (b, a) = step(s.b, c, a, 6);
    let (c, b) = step(c, a, b, 8);
    let (a, c) = step(a, b, c, 16);
    let (b, a) = step(b, c, a, 19);
    let (c, b) = step(c, a, b, 4);
    Lookup3 { a, b, c }
}

fn last_step(x: u32, y: u32, k: u32) -> (r: u32)
    requires
        0 < k < 32,
    ensures
        r == close_step(x, y, k),
{
    (x ^ y).wrapping_sub(rotate(y, k))
}

fn close(s: Lookup3) -> (r: u32)
    ensures
        r == closed_with(s),
{
    let c: u32 = last_step(s.c, s.b, 14);
    let a: u32 = last_step(s.a, c, 11);
    let b: u32 = last_step(s.b, a, 25);
    let c: u32 = last_step(c, b, 16);
    let a: u32 = last_step(a, c, 4);
    let b: u32 = last_step(b, a, 14);
    last_step(c, b, 24)
}

/// The lookup3 checksum of `data`, with initial value zero.
pub fn jenkins_lookup3(data: &[u8]) -> (r: u32)
    ensures
        r == lookup3(data@),
{
    let len: usize = data.len();
    let low: u64 = (len as u64) % 0x1_0000_0000;
    let seed: u32 = 0xdead_beefu32.wrapping_add(low as u32);
    let mut st: Lookup3 = Lookup3 { a: seed, b: seed, c: seed };
    let mut i: usize = 0;
    while len - i > 12
        invariant
            i <= len == data@.len(),
            lookup3_from(data@, i as int, st) == lookup3(data@),
        decreases len - i,
    {
        st = mix(absorb(data, i, st));
        i = i + 12;
    }
    if i == len {
        return st.c;
    }
    close(absorb(data, i, st))
}

// ---------------------------------------------------------------------------
// Laws
// ---------------------------------------------------------------------------

/// A rotation moves every bit up by `k` places; what leaves at the top comes
/// back at the bottom.
pub proof fn law_rotation_moves_bits(x: u32, k: u32, i: u32)
    requires
        0 < k < 32,
        i < 32,
    ensures
        (rotated(x, k) >> (((i + k) % 32) as u32)) & 1 == (x >> i) & 1,
{
    assert(((((x << k) | (x >> ((32 - k) as u32))) >> (((i + k) % 32) as u32)) & 1) == (x >> i) & 1)
        by (bit_vector)
        requires
            0 < k < 32,
            i < 32,
    ;
}

/// A block is mixed in six rounds, which turn the words by 4, 6, 8, 16, 19 and
/// 4 places. Each round changes the word before it and the word itself.
pub proof fn law_block_is_mixed_in_six_rounds(a: u32, b: u32, c: u32)
    ensures
        ({
            let a1 = a.wrapping_sub(c) ^ rotated(c, 4);
            let c1 = c.wrapping_add(b);
            let b1 = b.wrapping_sub(a1) ^ rotated(a1, 6);
            let a2 = a1.wrapping_add(c1);
            let c2 = c1.wrapping_sub(b1) ^ rotated(b1, 8);
            let b2 = b1.wrapping_add(a2);
            let a3 = a2.wrapping_sub(c2) ^ rotated(c2, 16);
            let c3 = c2.wrapping_add(b2);
            let b3 = b2.wrapping_sub(a3) ^ rotated(a3, 19);
            let a4 = a3.wrapping_add(c3);
            let c4 = c3.wrapping_sub(b3) ^ rotated(b3, 4);
            mixed(Lookup3 { a, b, c }) == (Lookup3 { a: a4, b: b3.wrapping_add(a4), c: c4 })
        }),
{
}

/// The checksum is closed in seven rounds, which turn the words by 14, 11, 25,
/// 16, 4, 14 and 24 places. The last word is the checksum.
pub proof fn law_state_is_closed_in_seven_rounds(a: u32, b: u32, c: u32)
    ensures
        ({
            let c1 = (c ^ b).wrapping_sub(rotated(b, 14));
            let a1 = (a ^ c1).wrapping_sub(rotated(c1, 11));
            let b1 = (b ^ a1).wrapping_sub(rotated(a1, 25));
            let c2 = (c1 ^ b1).wrapping_sub(rotated(b1, 16));
            let a2 = (a1 ^ c2).wrapping_sub(rotated(c2, 4));
            let b2 = (b1 ^ a2).wrapping_sub(rotated(a2, 14));
            closed_with(Lookup3 { a, b, c }) == (c2 ^ b2).wrapping_sub(rotated(b2, 24))
        }),
{
}

/// Twelve bytes are added to the state as three little-endian words.
pub proof fn law_block_is_three_words(s: Seq<u8>, i: int, st: Lookup3)
    requires
        0 <= i,
        i + 12 <= s.len(),
    ensures
        absorbed(s, i, st) == (Lookup3 {
            a: ((st.a + from_le(s.subrange(i, i + 4))) % 0x1_0000_0000) as u32,
            b: ((st.b + from_le(s.subrange(i + 4, i + 8))) % 0x1_0000_0000) as u32,
            c: ((st.c + from_le(s.subrange(i + 8, i + 12))) % 0x1_0000_0000) as u32,
        }),
{
    lemma_word_is_little_endian(s, i);
    lemma_word_is_little_endian(s, i + 4);
    lemma_word_is_little_endian(s, i + 8);
}

proof fn lemma_word_is_little_endian(s: Seq<u8>, i: int)
    requires
        0 <= i,
        i + 4 <= s.len(),
    ensures
        word_at(s, i) == from_le(s.subrange(i, i + 4)),
{
    let w = s.subrange(i, i + 4);
    reveal_with_fuel(from_le, 5);
    assert(w.skip(1).skip(1) =~= w.skip(2));
    assert(w.skip(2).skip(1) =~= w.skip(3));
    assert(w.skip(3).skip(1) =~= Seq::empty());
}

/// The bytes of the last block are filled up with zeros, which do not count for
/// the seed. Nothing at all has the bare seed for a checksum.
pub proof fn law_last_block_is_filled_up(s: Seq<u8>)
    requires
        s.len() <= 12,
    ensures
        s.len() == 0 ==> lookup3(s) == 0xdead_beef,
        s.len() > 0 ==> ({
            let seed = (0xdead_beef + s.len()) as u32;
            let filled = s + Seq::new((12 - s.len()) as nat, |i: int| 0u8);
            lookup3(s) == closed_with(absorbed(filled, 0, Lookup3 { a: seed, b: seed, c: seed }))
        }),
{
    let filled = s + Seq::new((12 - s.len()) as nat, |i: int| 0u8);
    assert forall|i: int| 0 <= i < 12 implies #[trigger] byte_or_zero(s, i) == byte_or_zero(
        filled,
        i,
    ) by {}
}

/// A block with more behind it is mixed, and the checksum goes on behind it; the
/// last block is closed instead, though it be full.
pub proof fn law_blocks_follow_one_another(s: Seq<u8>, i: int, st: Lookup3)
    requires
        0 <= i,
        i + 12 <= s.len(),
    ensures
        i + 12 < s.len() ==> lookup3_from(s, i, st) == lookup3_from(
            s,
            i + 12,
            mixed(absorbed(s, i, st)),
        ),
        i + 12 == s.len() ==> lookup3_from(s, i, st) == closed_with(absorbed(s, i, st)),
{
}

/// Long inputs start from a seed that counts their bytes.
pub proof fn law_seed_counts_bytes(s: Seq<u8>)
    ensures
        ({
            let seed = ((0xdead_beef + s.len()) % 0x1_0000_0000) as u32;
            lookup3(s) == lookup3_from(s, 0, Lookup3 { a: seed, b: seed, c: seed })
        }),
{
    lemma_seed(s.len());
}

proof fn lemma_seed(n: nat)
    ensures
        0xdead_beefu32.wrapping_add((n % 0x1_0000_0000) as u32) == ((0xdead_beef + n)
            % 0x1_0000_0000) as u32,
{
}

} // verus!
