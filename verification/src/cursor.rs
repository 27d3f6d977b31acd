//! Small values out of raw bytes. Past the end there are zeros.

use crate::bytes::from_le;
use vstd::prelude::*;

verus! {

/// A place in a byte string.
pub struct Cursor<'a> {
    bytes: &'a [u8],
    at: usize,
}

/// The first `n` bytes of `s`, with zeros where it is shorter.
pub open spec fn padded(s: Seq<u8>, n: nat) -> Seq<u8> {
    Seq::new(
        n,
        |i: int|
            if i < s.len() {
                s[i]
            } else {
                0
            },
    )
}

/// What is left of `s` after `n` bytes.
pub open spec fn after(s: Seq<u8>, n: nat) -> Seq<u8> {
    if n <= s.len() {
        s.skip(n as int)
    } else {
        Seq::empty()
    }
}

impl<'a> View for Cursor<'a> {
    type V = Seq<u8>;

    closed spec fn view(&self) -> Seq<u8> {
        self.bytes@.skip(self.at as int)
    }
}

impl<'a> Cursor<'a> {
    pub closed spec fn wf(&self) -> bool {
        self.at <= self.bytes@.len()
    }

    /// A cursor at the start.
    pub fn new(bytes: &'a [u8]) -> (c: Self)
        ensures
            c.wf(),
            c@ == bytes@,
    {
        let c: Cursor<'a> = Cursor { bytes, at: 0 };
        assert(c@ =~= bytes@);
        c
    }

    /// The next byte.
    pub fn byte(&mut self) -> (b: u8)
        requires
            old(self).wf(),
        ensures
            final(self).wf(),
            final(self)@ == after(old(self)@, 1),
            b == padded(old(self)@, 1)[0],
            old(self)@.len() > 0 ==> b == old(self)@[0] && final(self)@ == old(self)@.skip(1),
            old(self)@.len() == 0 ==> b == 0 && final(self)@.len() == 0,
    {
        if self.at < self.bytes.len() {
            let b: u8 = self.bytes[self.at];
            self.at = self.at + 1;
            assert(self@ =~= after(old(self)@, 1));
            b
        } else {
            assert(self@ =~= after(old(self)@, 1));
            0
        }
    }

    fn take(&mut self, n: usize) -> (v: Vec<u8>)
        requires
            old(self).wf(),
        ensures
            final(self).wf(),
            final(self)@ == after(old(self)@, n as nat),
            v@ == padded(old(self)@, n as nat),
    {
        let ghost start = self@;
        let mut v: Vec<u8> = Vec::new();
        let mut i: usize = 0;
        while i < n
            invariant
                i <= n,
                self.wf(),
                self@ == after(start, i as nat),
                v@ == padded(start, i as nat),
            decreases n - i,
        {
            let b: u8 = self.byte();
            v.push(b);
            i = i + 1;
            assert(v@ =~= padded(start, i as nat));
            assert(self@ =~= after(start, i as nat));
        }
        v
    }

    /// The next eight bytes as a little-endian number.
    pub fn u64(&mut self) -> (v: u64)
        requires
            old(self).wf(),
        ensures
            final(self).wf(),
            final(self)@ == after(old(self)@, 8),
            v == from_le(padded(old(self)@, 8)),
            old(self)@.len() >= 8 ==> v == from_le(old(self)@.take(8)) && final(self)@
                == old(self)@.skip(8),
    {
        let b: Vec<u8> = self.take(8);
        assert(b@.subrange(0, 8) =~= b@);
        proof {
            if old(self)@.len() >= 8 {
                assert(b@ =~= old(self)@.take(8));
            }
        }
        crate::bytes::read_le(b.as_slice(), 0, 8)
    }

    /// The next 32 bytes.
    pub fn hash(&mut self) -> (h: [u8; 32])
        requires
            old(self).wf(),
        ensures
            final(self).wf(),
            final(self)@ == after(old(self)@, 32),
            h@ == padded(old(self)@, 32),
            old(self)@.len() >= 32 ==> h@ == old(self)@.take(32) && final(self)@
                == old(self)@.skip(32),
    {
        let b: Vec<u8> = self.take(32);
        proof {
            if old(self)@.len() >= 32 {
                assert(b@ =~= old(self)@.take(32));
                assert(b@.subrange(0, 32) =~= b@);
            }
        }
        crate::digest::digest_at(b.as_slice(), 0)
    }

    /// A number from 0 to `max`.
    pub fn bounded(&mut self, max: u64) -> (v: u64)
        requires
            old(self).wf(),
            max < u64::MAX,
        ensures
            final(self).wf(),
            final(self)@ == after(old(self)@, 8),
            v == from_le(padded(old(self)@, 8)) % (max + 1) as nat,
            v <= max,
            old(self)@.len() >= 8 ==> v == from_le(old(self)@.take(8)) % (max + 1) as nat,
    {
        self.u64() % (max + 1)
    }

    /// All that is left; afterwards nothing is.
    pub fn rest(&mut self) -> (v: Vec<u8>)
        requires
            old(self).wf(),
        ensures
            final(self).wf(),
            final(self)@ == Seq::<u8>::empty(),
            v@ == old(self)@,
    {
        let end: usize = self.bytes.len();
        let v: Vec<u8> = crate::bytes::copy_range(self.bytes, self.at, end);
        self.at = end;
        assert(self@ =~= Seq::empty());
        assert(v@ =~= old(self)@);
        v
    }
}

} // verus!
