//! 16-bit IEEE 754 numbers, by their bits: storage and widening to 32 bits.

use crate::bytes::{
    from_le, le_bytes, lemma_byte_span, lemma_from_le_bound, lemma_le_len, lemma_le_roundtrip,
    push_le, read_le,
};
use vstd::arithmetic::power2::{lemma_pow2_adds, lemma_pow2_pos, lemma_pow2_unfold, pow2};
use vstd::prelude::*;

verus! {

// ---------------------------------------------------------------------------
// Storage
// ---------------------------------------------------------------------------

/// Two little-endian bytes per number.
pub open spec fn bits16_bytes(v: Seq<u16>) -> Seq<u8>
    decreases v.len(),
{
    if v.len() == 0 {
        Seq::empty()
    } else {
        bits16_bytes(v.drop_last()) + le_bytes(v.last() as nat, 2)
    }
}

/// The 16-bit words in some bytes.
pub open spec fn half_words(data: Seq<u8>) -> Seq<u16> {
    Seq::new(data.len() / 2, |i: int| from_le(data.subrange(2 * i, 2 * i + 2)) as u16)
}

pub(crate) fn write_halves(words: &[u16]) -> (r: Vec<u8>)
    ensures
        r@ == bits16_bytes(words@),
{
    let mut data: Vec<u8> = Vec::new();
    let mut i: usize = 0;
    assert(words@.take(0) =~= Seq::empty());
    while i < words.len()
        invariant
            i <= words@.len(),
            data@ == bits16_bytes(words@.take(i as int)),
        decreases words@.len() - i,
    {
        assert(words@.take(i + 1).drop_last() =~= words@.take(i as int));
        push_le(&mut data, words[i] as u64, 2);
        i = i + 1;
    }
    assert(words@.take(i as int) =~= words@);
    data
}

proof fn lemma_half_word(words: Seq<u16>, i: int)
    requires
        0 <= i <= words.len(),
    ensures
        bits16_bytes(words).len() == 2 * words.len(),
        i < words.len() ==> bits16_bytes(words).subrange(2 * i, 2 * i + 2) == le_bytes(
            words[i] as nat,
            2,
        ),
    decreases words.len(),
{
    if words.len() > 0 {
        let rest = words.drop_last();
        let all = bits16_bytes(words);
        lemma_le_len(words.last() as nat, 2);
        if i < rest.len() {
            lemma_half_word(rest, i);
            assert(all.subrange(2 * i, 2 * i + 2) =~= bits16_bytes(rest).subrange(
                2 * i,
                2 * i + 2,
            ));
        } else {
            lemma_half_word(rest, rest.len() as int);
            if i < words.len() {
                assert(all.subrange(2 * i, 2 * i + 2) =~= le_bytes(words[i] as nat, 2));
            }
        }
    }
}

/// Reading 16-bit words gives back what was written.
pub proof fn law_half_words_roundtrip(words: Seq<u16>)
    ensures
        half_words(bits16_bytes(words)) == words,
{
    let data = bits16_bytes(words);
    lemma_half_word(words, words.len() as int);
    assert forall|i: int| 0 <= i < words.len() implies half_words(data)[i] == words[i] by {
        lemma_half_word(words, i);
        lemma_byte_span();
        lemma_le_roundtrip(words[i] as nat, 2);
    }
    assert(half_words(data) =~= words);
}

// ---------------------------------------------------------------------------
// Widening
// ---------------------------------------------------------------------------

/// The position of the highest bit of `m`.
pub open spec fn top_bit(m: nat) -> nat
    decreases m,
{
    if m <= 1 {
        0
    } else {
        1 + top_bit(m / 2)
    }
}

/// The magnitude of the 32-bit number equal to the 16-bit number with biased
/// exponent `e` and fraction `m`. Not-a-number becomes a quiet one.
pub open spec fn wide_magnitude(e: nat, m: nat) -> nat {
    if e == 31 {
        if m == 0 {
            0x7f80_0000
        } else {
            0x7fc0_0000 + (m % 0x200) * 0x2000
        }
    } else if e > 0 {
        (e + 112) * 0x80_0000 + m * 0x2000
    } else if m == 0 {
        0
    } else {
        (top_bit(m) + 103) as nat * 0x80_0000 + (m - pow2(top_bit(m))) as nat * pow2(
            (23 - top_bit(m)) as nat,
        )
    }
}

/// The bits of the 32-bit number equal to a 16-bit number.
pub open spec fn widened(h: u16) -> u32 {
    ((h / 0x8000) as nat * 0x8000_0000 + wide_magnitude(
        ((h / 0x400) % 0x20) as nat,
        (h % 0x400) as nat,
    )) as u32
}

/// The numbers of a list, widened.
pub open spec fn all_widened(halves: Seq<u16>) -> Seq<u32> {
    halves.map_values(|h: u16| widened(h))
}

/// The highest bit is the largest power of two not above the number.
proof fn lemma_top_bit(m: nat)
    requires
        m > 0,
    ensures
        pow2(top_bit(m)) <= m < 2 * pow2(top_bit(m)),
    decreases m,
{
    if m > 1 {
        lemma_top_bit(m / 2);
        lemma_pow2_unfold(top_bit(m));
    } else {
        assert(pow2(0) == 1) by {
            vstd::arithmetic::power2::lemma2_to64();
        }
    }
}

proof fn lemma_top_bit_unique(m: nat, k: nat)
    requires
        pow2(k) <= m < 2 * pow2(k),
    ensures
        k == top_bit(m),
{
    lemma_pow2_pos(k);
    lemma_top_bit(m);
    let t = top_bit(m);
    lemma_pow2_unfold(t + 1);
    lemma_pow2_unfold(k + 1);
    if t < k {
        if t + 1 < k {
            vstd::arithmetic::power2::lemma_pow2_strictly_increases((t + 1) as nat, k);
        }
    } else if k < t {
        if k + 1 < t {
            vstd::arithmetic::power2::lemma_pow2_strictly_increases((k + 1) as nat, t);
        }
    }
}

fn widen_small(m: u32) -> (r: u32)
    requires
        0 < m < 0x400,
    ensures
        r == wide_magnitude(0, m as nat),
{
    let mut k: u32 = 0;
    let mut p: u32 = 1;
    let mut q: u32 = 0x80_0000;
    proof {
        vstd::arithmetic::power2::lemma2_to64();
    }
    while 2 * p <= m
        invariant
            m < 0x400,
            k <= 10,
            p == pow2(k as nat),
            p <= m,
            q == pow2((23 - k) as nat),
            q <= 0x80_0000,
            p * q == 0x80_0000,
        decreases m - p,
    {
        proof {
            vstd::arithmetic::power2::lemma2_to64();
            if k == 10 {
                assert(false);
            }
            lemma_pow2_unfold((k + 1) as nat);
            lemma_pow2_unfold((23 - k) as nat);
            assert((2 * p) * (q / 2) == p * q) by (nonlinear_arith)
                requires
                    q % 2 == 0,
            ;
        }
        k = k + 1;
        p = 2 * p;
        q = q / 2;
    }
    proof {
        lemma_top_bit_unique(m as nat, k as nat);
        assert((m - p) * q < 0x80_0000) by (nonlinear_arith)
            requires
                p <= m < 2 * p,
                p * q == 0x80_0000,
                q >= 1,
        ;
        assert(0 <= (m - p) * q) by (nonlinear_arith)
            requires
                p <= m,
                q >= 0,
        ;
    }
    (k + 103) * 0x80_0000 + (m - p) * q
}

/// Widens a 16-bit number.
pub fn widen(h: u16) -> (w: u32)
    ensures
        w == widened(h),
{
    let e: u32 = ((h / 0x400) % 0x20) as u32;
    let m: u32 = (h % 0x400) as u32;
    let magnitude: u32 = if e == 31 {
        if m == 0 {
            0x7f80_0000
        } else {
            0x7fc0_0000 + (m % 0x200) * 0x2000
        }
    } else if e > 0 {
        (e + 112) * 0x80_0000 + m * 0x2000
    } else if m == 0 {
        0
    } else {
        widen_small(m)
    };
    proof {
        lemma_magnitude_bound(e as nat, m as nat);
    }
    (h / 0x8000) as u32 * 0x8000_0000 + magnitude
}

proof fn lemma_magnitude_bound(e: nat, m: nat)
    requires
        e < 32,
        m < 0x400,
    ensures
        wide_magnitude(e, m) < 0x8000_0000,
{
    if e == 0 && m > 0 {
        lemma_small_parts(m);
        lemma_top_bit(m);
    }
}

/// A small number fills the fraction of the wide one.
proof fn lemma_small_parts(m: nat)
    requires
        0 < m < 0x400,
    ensures
        top_bit(m) <= 9,
        0 <= (m - pow2(top_bit(m))) * pow2((23 - top_bit(m)) as nat) < 0x80_0000,
{
    let k = top_bit(m);
    vstd::arithmetic::power2::lemma2_to64();
    lemma_top_bit(m);
    if k > 9 {
        if k > 10 {
            vstd::arithmetic::power2::lemma_pow2_strictly_increases(10, k);
        }
        assert(false);
    }
    let p = pow2(k);
    let q = pow2((23 - k) as nat);
    lemma_pow2_adds(k, (23 - k) as nat);
    lemma_pow2_pos((23 - k) as nat);
    assert((m - p) * q < 0x80_0000) by (nonlinear_arith)
        requires
            p <= m < 2 * p,
            p * q == 0x80_0000,
            q >= 1,
    ;
    assert(0 <= (m - p) * q) by (nonlinear_arith)
        requires
            p <= m,
            q >= 0,
    ;
}

/// Reads 16-bit numbers and widens them.
pub fn read_halves(data: &[u8]) -> (r: Vec<u32>)
    ensures
        r@ == all_widened(half_words(data@)),
{
    let len: usize = data.len();
    let n: usize = len / 2;
    let mut r: Vec<u32> = Vec::new();
    let mut i: usize = 0;
    while i < n
        invariant
            len == data@.len(),
            i <= n == len / 2,
            r@.len() == i,
            forall|j: int| 0 <= j < i ==> #[trigger] r@[j] == widened(half_words(data@)[j]),
        decreases n - i,
    {
        proof {
            lemma_from_le_bound(data@.subrange(2 * i, 2 * i + 2));
            lemma_byte_span();
        }
        r.push(widen(read_le(data, 2 * i, 2) as u16));
        i = i + 1;
    }
    assert(r@ =~= all_widened(half_words(data@)));
    r
}

// ---------------------------------------------------------------------------
// Values
// ---------------------------------------------------------------------------

/// The value of a finite 16-bit number, in units of the smallest one.
pub open spec fn half_units(h: u16) -> int {
    let e = ((h / 0x400) % 0x20) as nat;
    let m = (h % 0x400) as nat;
    let magnitude = if e == 0 {
        m
    } else {
        (m + 0x400) * pow2((e - 1) as nat)
    };
    if h >= 0x8000 {
        -magnitude
    } else {
        magnitude as int
    }
}

/// The value of a finite 32-bit number, in units of the smallest one.
pub open spec fn single_units(w: u32) -> int {
    let e = ((w / 0x80_0000) % 0x100) as nat;
    let m = (w % 0x80_0000) as nat;
    let magnitude = if e == 0 {
        m
    } else {
        (m + 0x80_0000) * pow2((e - 1) as nat)
    };
    if w >= 0x8000_0000 {
        -magnitude
    } else {
        magnitude as int
    }
}

/// Widening a finite number keeps its value: the smallest 16-bit number is
/// 2 to the 125 times the smallest 32-bit one.
pub proof fn law_widening_is_exact(h: u16)
    requires
        (h / 0x400) % 0x20 != 31,
    ensures
        single_units(widened(h)) == half_units(h) * pow2(125),
{
    let e = ((h / 0x400) % 0x20) as nat;
    let m = (h % 0x400) as nat;
    let w = widened(h);
    let magnitude = wide_magnitude(e, m);
    lemma_magnitude_bound(e, m);
    vstd::arithmetic::power2::lemma2_to64();
    let s = (h / 0x8000) as nat;
    assert(w == s * 0x8000_0000 + magnitude);
    if e > 0 {
        assert((w / 0x80_0000) % 0x100 == e + 112);
        assert(w % 0x80_0000 == m * 0x2000);
        lemma_pow2_adds(13, (e + 111) as nat);
        lemma_pow2_adds((e - 1) as nat, 125);
        let a = pow2((e + 111) as nat);
        let b = pow2((e - 1) as nat);
        let c = pow2(125);
        assert(0x2000 * a == b * c);
        assert((m * 0x2000 + 0x80_0000) * a == ((m + 0x400) * b) * c) by (nonlinear_arith)
            requires
                0x2000 * a == b * c,
        ;
        assert(-((m + 0x400) * b) * c == -(((m + 0x400) * b) * c)) by (nonlinear_arith);
    } else if m == 0 {
        assert(0 * pow2(125) == 0);
    } else {
        let k = top_bit(m);
        lemma_small_parts(m);
        lemma_top_bit(m);
        let p = pow2(k);
        let q = pow2((23 - k) as nat);
        let a = pow2((k + 102) as nat);
        let c = pow2(125);
        assert((w / 0x80_0000) % 0x100 == k + 103);
        assert(w % 0x80_0000 == (m - p) * q);
        lemma_pow2_adds(k, (23 - k) as nat);
        lemma_pow2_adds((23 - k) as nat, (k + 102) as nat);
        assert(((m - p) * q + 0x80_0000) * a == m * c) by (nonlinear_arith)
            requires
                p * q == 0x80_0000,
                q * a == c,
        ;
        assert(-m * c == -(m * c)) by (nonlinear_arith);
    }
}

/// Widening keeps the sign, infinities, and not-a-numbers, which become quiet ones.
pub proof fn law_widening_keeps_special_values(h: u16)
    ensures
        widened(h) >= 0x8000_0000 <==> h >= 0x8000,
        (h / 0x400) % 0x20 == 31 && h % 0x400 == 0 ==> widened(h) % 0x8000_0000 == 0x7f80_0000,
        (h / 0x400) % 0x20 == 31 && h % 0x400 != 0 ==> 0x7fc0_0000 <= widened(h) % 0x8000_0000,
        (h / 0x400) % 0x20 == 31 && h % 0x400 != 0 ==> widened(h) % 0x8000_0000 - 0x7fc0_0000 == (h
            % 0x200) * 0x2000,
        h % 0x8000 == 0 ==> widened(h) % 0x8000_0000 == 0,
{
    let e = ((h / 0x400) % 0x20) as nat;
    let m = (h % 0x400) as nat;
    lemma_magnitude_bound(e, m);
    assert(widened(h) == (h / 0x8000) * 0x8000_0000 + wide_magnitude(e, m));
}

} // verus!
