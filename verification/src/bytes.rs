//! Fixed-width integers as byte strings, and small helpers over byte vectors.

use vstd::arithmetic::div_mod::lemma_div_denominator;
use vstd::arithmetic::power::{lemma_pow0, lemma_pow_positive, pow};
use vstd::prelude::*;

verus! {

/// The `n` low-order bytes of `v`, least significant first.
pub open spec fn le_bytes(v: nat, n: nat) -> Seq<u8>
    decreases n,
{
    if n == 0 {
        Seq::empty()
    } else {
        seq![(v % 256) as u8] + le_bytes(v / 256, (n - 1) as nat)
    }
}

/// The number whose bytes, least significant first, are `s`.
pub open spec fn from_le(s: Seq<u8>) -> nat
    decreases s.len(),
{
    if s.len() == 0 {
        0
    } else {
        s[0] as nat + 256 * from_le(s.skip(1))
    }
}

/// The `n` low-order bytes of `v`, most significant first.
pub open spec fn be_bytes(v: nat, n: nat) -> Seq<u8>
    decreases n,
{
    if n == 0 {
        Seq::empty()
    } else {
        be_bytes(v / 256, (n - 1) as nat).push((v % 256) as u8)
    }
}

/// The number whose bytes, most significant first, are `s`.
pub open spec fn from_be(s: Seq<u8>) -> nat
    decreases s.len(),
{
    if s.len() == 0 {
        0
    } else {
        256 * from_be(s.drop_last()) + s.last() as nat
    }
}

/// One more than the largest number that `n` bytes hold.
pub open spec fn byte_span(n: nat) -> nat
    decreases n,
{
    if n == 0 {
        1
    } else {
        256 * byte_span((n - 1) as nat)
    }
}

/// Eight little-endian bytes per number, one number after the other.
pub open spec fn le64_all(s: Seq<u64>) -> Seq<u8>
    decreases s.len(),
{
    if s.len() == 0 {
        Seq::empty()
    } else {
        le64_all(s.drop_last()) + le_bytes(s.last() as nat, 8)
    }
}

/// The parts one after another.
pub open spec fn joined(parts: Seq<Seq<u8>>) -> Seq<u8>
    decreases parts.len(),
{
    if parts.len() == 0 {
        Seq::empty()
    } else {
        joined(parts.drop_last()) + parts.last()
    }
}

/// A range of a part is that range of the whole, moved by where the part starts.
pub proof fn lemma_window(whole: Seq<u8>, at: int, part: Seq<u8>, from: int, to: int)
    requires
        0 <= at,
        at + part.len() <= whole.len(),
        whole.subrange(at, at + part.len()) == part,
        0 <= from <= to <= part.len(),
    ensures
        whole.subrange(at + from, at + to) == part.subrange(from, to),
{
    assert(whole.subrange(at + from, at + to) =~= whole.subrange(at, at + part.len()).subrange(
        from,
        to,
    ));
}

/// Appends eight little-endian bytes per number.
pub fn push_le64_all(buf: &mut Vec<u8>, s: &[u64])
    ensures
        final(buf)@ == old(buf)@ + le64_all(s@),
{
    let ghost start = buf@;
    let mut i: usize = 0;
    assert(start + le64_all(s@.take(0)) =~= start);
    while i < s.len()
        invariant
            i <= s@.len(),
            buf@ == start + le64_all(s@.take(i as int)),
        decreases s@.len() - i,
    {
        push_le(buf, s[i], 8);
        proof {
            let next = s@.take(i + 1);
            assert(next.drop_last() =~= s@.take(i as int));
            assert(buf@ =~= start + le64_all(next));
        }
        i = i + 1;
    }
    assert(s@.take(i as int) =~= s@);
}

/// Different lists of numbers have different encodings.
pub proof fn lemma_le64_all_injective(a: Seq<u64>, b: Seq<u64>)
    requires
        le64_all(a) == le64_all(b),
    ensures
        a == b,
    decreases a.len(),
{
    lemma_le64_all_len(a);
    lemma_le64_all_len(b);
    if a.len() > 0 {
        lemma_le_len(a.last() as nat, 8);
        lemma_le_len(b.last() as nat, 8);
        let n = le64_all(a).len() - 8;
        assert(le64_all(a).take(n) =~= le64_all(a.drop_last()));
        assert(le64_all(b).take(n) =~= le64_all(b.drop_last()));
        lemma_le64_all_injective(a.drop_last(), b.drop_last());
        assert(le64_all(a).skip(n) =~= le_bytes(a.last() as nat, 8));
        assert(le64_all(b).skip(n) =~= le_bytes(b.last() as nat, 8));
        lemma_byte_span();
        lemma_le_roundtrip(a.last() as nat, 8);
        lemma_le_roundtrip(b.last() as nat, 8);
        assert(a =~= a.drop_last().push(a.last()));
        assert(b =~= b.drop_last().push(b.last()));
    } else {
        assert(a =~= b);
    }
}

pub proof fn lemma_le64_all_len(s: Seq<u64>)
    ensures
        le64_all(s).len() == 8 * s.len(),
    decreases s.len(),
{
    if s.len() > 0 {
        lemma_le64_all_len(s.drop_last());
        lemma_le_len(s.last() as nat, 8);
    }
}

pub proof fn lemma_le_len(v: nat, n: nat)
    ensures
        le_bytes(v, n).len() == n,
    decreases n,
{
    if n > 0 {
        lemma_le_len(v / 256, (n - 1) as nat);
    }
}

pub proof fn lemma_be_len(v: nat, n: nat)
    ensures
        be_bytes(v, n).len() == n,
    decreases n,
{
    if n > 0 {
        lemma_be_len(v / 256, (n - 1) as nat);
    }
}

pub proof fn lemma_byte_span()
    ensures
        byte_span(1) == 0x100,
        byte_span(2) == 0x1_0000,
        byte_span(4) == 0x1_0000_0000,
        byte_span(8) == 0x1_0000_0000_0000_0000,
{
    reveal_with_fuel(byte_span, 9);
}

/// Decoding the little-endian bytes of a number that fits gives the number back.
pub proof fn lemma_le_roundtrip(v: nat, n: nat)
    requires
        v < byte_span(n),
    ensures
        from_le(le_bytes(v, n)) == v,
    decreases n,
{
    if n > 0 {
        let rest = le_bytes(v / 256, (n - 1) as nat);
        lemma_le_roundtrip(v / 256, (n - 1) as nat);
        assert(le_bytes(v, n).skip(1) =~= rest);
    }
}

/// Decoding the big-endian bytes of a number that fits gives the number back.
pub proof fn lemma_be_roundtrip(v: nat, n: nat)
    requires
        v < byte_span(n),
    ensures
        from_be(be_bytes(v, n)) == v,
    decreases n,
{
    if n > 0 {
        let rest = be_bytes(v / 256, (n - 1) as nat);
        lemma_be_roundtrip(v / 256, (n - 1) as nat);
        assert(be_bytes(v, n).drop_last() =~= rest);
    }
}

/// What `n` bytes encode is below the span of `n` bytes.
pub proof fn lemma_from_be_bound(s: Seq<u8>)
    ensures
        from_be(s) < byte_span(s.len()),
    decreases s.len(),
{
    if s.len() > 0 {
        lemma_from_be_bound(s.drop_last());
    }
}

/// What `n` bytes encode is below the span of `n` bytes.
pub proof fn lemma_from_le_bound(s: Seq<u8>)
    ensures
        from_le(s) < byte_span(s.len()),
    decreases s.len(),
{
    if s.len() > 0 {
        lemma_from_le_bound(s.skip(1));
    }
}

/// Appends the `n` low-order bytes of `v`, least significant first.
pub fn push_le(buf: &mut Vec<u8>, v: u64, n: usize)
    ensures
        final(buf)@ == old(buf)@ + le_bytes(v as nat, n as nat),
{
    let ghost start = buf@;
    let mut x: u64 = v;
    let mut i: usize = 0;
    while i < n
        invariant
            i <= n,
            start + le_bytes(v as nat, n as nat) == buf@ + le_bytes(x as nat, (n - i) as nat),
        decreases n - i,
    {
        let ghost before = buf@;
        let b: u8 = (x % 256) as u8;
        assert(le_bytes(x as nat, (n - i) as nat) == seq![b] + le_bytes(
            (x / 256) as nat,
            (n - i - 1) as nat,
        ));
        buf.push(b);
        x = x / 256;
        i = i + 1;
        assert(before + (seq![b] + le_bytes(x as nat, (n - i) as nat)) =~= buf@ + le_bytes(
            x as nat,
            (n - i) as nat,
        ));
    }
    assert(buf@ + le_bytes(x as nat, 0) =~= buf@);
}

/// Appends the `n` low-order bytes of `v`, most significant first.
pub fn push_be(buf: &mut Vec<u8>, v: u64, n: usize)
    requires
        n <= 8,
    ensures
        final(buf)@ == old(buf)@ + be_bytes(v as nat, n as nat),
    decreases n,
{
    if n > 0 {
        push_be(buf, v / 256, n - 1);
        let b: u8 = (v % 256) as u8;
        buf.push(b);
        assert(buf@ =~= old(buf)@ + be_bytes(v as nat, n as nat));
    } else {
        assert(buf@ =~= old(buf)@ + be_bytes(v as nat, 0));
    }
}

/// Appends a copy of `s`.
pub fn extend(buf: &mut Vec<u8>, s: &[u8])
    ensures
        final(buf)@ == old(buf)@ + s@,
{
    buf.extend_from_slice(s);
    assert(buf@ =~= old(buf)@ + s@);
}

/// Appends four bytes.
pub fn push4(buf: &mut Vec<u8>, a: u8, b: u8, c: u8, d: u8)
    ensures
        final(buf)@ == old(buf)@ + seq![a, b, c, d],
{
    buf.push(a);
    buf.push(b);
    buf.push(c);
    buf.push(d);
    assert(buf@ =~= old(buf)@ + seq![a, b, c, d]);
}

/// Appends two bytes.
pub fn push2(buf: &mut Vec<u8>, a: u8, b: u8)
    ensures
        final(buf)@ == old(buf)@ + seq![a, b],
{
    buf.push(a);
    buf.push(b);
    assert(buf@ =~= old(buf)@ + seq![a, b]);
}

/// Appends one byte.
pub fn push1(buf: &mut Vec<u8>, a: u8)
    ensures
        final(buf)@ == old(buf)@ + seq![a],
{
    buf.push(a);
    assert(buf@ =~= old(buf)@ + seq![a]);
}

/// `n` zero bytes.
pub open spec fn zeros(n: nat) -> Seq<u8> {
    Seq::new(n, |i: int| 0u8)
}

/// Appends `n` zero bytes.
pub fn push_zeros(buf: &mut Vec<u8>, n: usize)
    ensures
        final(buf)@ == old(buf)@ + zeros(n as nat),
{
    push_fill(buf, 0, n);
    assert(buf@ =~= old(buf)@ + zeros(n as nat));
}

/// Appends `n` copies of `b`.
pub fn push_fill(buf: &mut Vec<u8>, b: u8, n: usize)
    ensures
        final(buf)@ == old(buf)@ + Seq::new(n as nat, |i: int| b),
{
    let ghost start = buf@;
    let mut i: usize = 0;
    while i < n
        invariant
            i <= n,
            buf@ == start + Seq::new(i as nat, |j: int| b),
        decreases n - i,
    {
        buf.push(b);
        i = i + 1;
        assert(buf@ =~= start + Seq::new(i as nat, |j: int| b));
    }
    assert(buf@ =~= start + Seq::new(n as nat, |i: int| b));
}

/// Whether two byte strings are equal.
pub fn same_bytes(a: &[u8], b: &[u8]) -> (r: bool)
    ensures
        r == (a@ == b@),
{
    if a.len() != b.len() {
        return false;
    }
    let mut i: usize = 0;
    while i < a.len()
        invariant
            i <= a@.len() == b@.len(),
            forall|j: int| 0 <= j < i ==> a@[j] == b@[j],
        decreases a@.len() - i,
    {
        if a[i] != b[i] {
            return false;
        }
        i = i + 1;
    }
    assert(a@ =~= b@);
    true
}

/// A copy of `s[from..to]`.
pub fn copy_range(s: &[u8], from: usize, to: usize) -> (r: Vec<u8>)
    requires
        from <= to <= s@.len(),
    ensures
        r@ == s@.subrange(from as int, to as int),
{
    let mut r: Vec<u8> = Vec::with_capacity(to - from);
    let mut i: usize = from;
    while i < to
        invariant
            from <= i <= to <= s@.len(),
            r@ == s@.subrange(from as int, i as int),
        decreases to - i,
    {
        r.push(s[i]);
        i = i + 1;
        assert(r@ =~= s@.subrange(from as int, i as int));
    }
    r
}

/// Reads `n` bytes at `at`, most significant first.
pub fn read_be(s: &[u8], at: usize, n: usize) -> (v: u64)
    requires
        n <= 8,
        at + n <= s@.len(),
    ensures
        v == from_be(s@.subrange(at as int, at + n)),
{
    let len: usize = s.len();
    let mut v: u64 = 0;
    let mut i: usize = 0;
    assert(s@.subrange(at as int, at as int) =~= Seq::empty());
    while i < n
        invariant
            i <= n <= 8,
            at + n <= len == s@.len(),
            v == from_be(s@.subrange(at as int, at + i)),
        decreases n - i,
    {
        proof {
            let head = s@.subrange(at as int, at + i);
            let next = s@.subrange(at as int, at + i + 1);
            assert(next.drop_last() =~= head);
            lemma_from_be_bound(next);
            lemma_span_monotonic((i + 1) as nat, 8);
            lemma_byte_span();
        }
        v = v * 256 + s[at + i] as u64;
        i = i + 1;
    }
    v
}

/// Reads `n` bytes at `at`, least significant first.
pub fn read_le(s: &[u8], at: usize, n: usize) -> (v: u64)
    requires
        n <= 8,
        at + n <= s@.len(),
    ensures
        v == from_le(s@.subrange(at as int, at + n)),
{
    let len: usize = s.len();
    let mut v: u64 = 0;
    let mut i: usize = n;
    assert(s@.subrange(at + n, at + n) =~= Seq::empty());
    while i > 0
        invariant
            i <= n <= 8,
            at + n <= len == s@.len(),
            v == from_le(s@.subrange(at + i, at + n)),
        decreases i,
    {
        proof {
            let tail = s@.subrange(at + i, at + n);
            let next = s@.subrange(at + i - 1, at + n);
            assert(next.skip(1) =~= tail);
            lemma_from_le_bound(next);
            lemma_span_monotonic((n - i + 1) as nat, 8);
            lemma_byte_span();
        }
        i = i - 1;
        v = v * 256 + s[at + i] as u64;
    }
    v
}

proof fn lemma_span_monotonic(a: nat, b: nat)
    requires
        a <= b,
    ensures
        byte_span(a) <= byte_span(b),
        byte_span(a) >= 1,
    decreases b,
{
    if b > 0 {
        if a < b {
            lemma_span_monotonic(a, (b - 1) as nat);
        } else {
            lemma_span_monotonic((a - 1) as nat, (b - 1) as nat);
        }
    }
}

/// Numbers are written in base 256: little-endian with the lowest digit first,
/// big-endian with the highest first.
pub proof fn law_bytes_are_digits(v: nat, n: nat, i: nat)
    requires
        i < n,
    ensures
        le_bytes(v, n).len() == n,
        be_bytes(v, n).len() == n,
        le_bytes(v, n)[i as int] == (v / pow(256, i) as nat) % 256,
        be_bytes(v, n)[n - 1 - i] == (v / pow(256, i) as nat) % 256,
    decreases n,
{
    lemma_le_len(v, n);
    lemma_be_len(v, n);
    lemma_pow_positive(256, i);
    if i == 0 {
        lemma_pow0(256);
        assert(pow(256, i) as nat == 1);
        assert(v / 1nat == v);
    } else {
        law_bytes_are_digits(v / 256, (n - 1) as nat, (i - 1) as nat);
        reveal(pow);
        let p = pow(256, (i - 1) as nat);
        lemma_pow_positive(256, (i - 1) as nat);
        assert(pow(256, i) == 256 * p);
        lemma_div_denominator(v as int, 256, p);
        assert(v / pow(256, i) as nat == (v / 256) / p as nat);
    }
}

/// Parts put together stand one behind another: each part begins where the parts
/// before it end.
pub proof fn law_joined_parts_stand(parts: Seq<Seq<u8>>, i: int)
    requires
        0 <= i < parts.len(),
    ensures
        ({
            let at = joined(parts.take(i)).len() as int;
            &&& joined(parts.take(i + 1)).len() == at + parts[i].len()
            &&& at + parts[i].len() <= joined(parts).len()
            &&& joined(parts).subrange(at, at + parts[i].len()) == parts[i]
            &&& joined(parts.take(0)).len() == 0
            &&& parts.take(parts.len() as int) == parts
        }),
    decreases parts.len(),
{
    let at = joined(parts.take(i)).len() as int;
    assert(parts.take(i + 1).drop_last() =~= parts.take(i));
    assert(parts.take(0) =~= Seq::empty());
    assert(parts.take(parts.len() as int) =~= parts);
    if i == parts.len() - 1 {
        assert(parts.drop_last() =~= parts.take(i));
        assert(joined(parts).subrange(at, at + parts[i].len()) =~= parts[i]);
    } else {
        let front = parts.drop_last();
        law_joined_parts_stand(front, i);
        assert(front.take(i) =~= parts.take(i));
        assert(joined(parts).subrange(at, at + parts[i].len()) =~= joined(front).subrange(
            at,
            at + parts[i].len(),
        ));
    }
}

} // verus!
