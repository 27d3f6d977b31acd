//! Selections of elements in a dataspace.

use core::ops::Range;
use vstd::prelude::*;

verus! {

/// A selection of elements.
#[derive(Debug, Clone, PartialEq, Eq)]
pub enum Selection {
    /// Every element.
    All,
    /// No element.
    Empty,
    /// Along each axis, `count` blocks of `block` elements, `stride` apart,
    /// the first at `start`.
    Hyperslab { start: Vec<u64>, stride: Vec<u64>, count: Vec<u64>, block: Vec<u64> },
    /// Single elements.
    Points(Vec<Vec<u64>>),
}

/// Whether one of the blocks overlaps the `len` elements from `off` on.
pub open spec fn axis_hits(
    start: int,
    stride: int,
    count: int,
    block: int,
    off: int,
    len: int,
) -> bool {
    exists|i: int| #[trigger] block_hits(start, stride, count, block, off, len, i)
}

/// Whether block `i` exists and overlaps the `len` elements from `off` on.
pub open spec fn block_hits(
    start: int,
    stride: int,
    count: int,
    block: int,
    off: int,
    len: int,
    i: int,
) -> bool {
    &&& 0 <= i < count
    &&& block > 0
    &&& len > 0
    &&& start + i * stride < off + len
    &&& off < start + i * stride + block
}

/// Whether `point` lies in the box of extent `shape` at `offset`.
pub open spec fn in_box(point: Seq<u64>, offset: Seq<u64>, shape: Seq<u64>) -> bool {
    forall|d: int|
        0 <= d < offset.len() ==> #[trigger] offset[d] <= point[d] < offset[d] + shape[d]
}

/// Whether the blocks are the single elements of `range`.
pub open spec fn covers_range(
    start: u64,
    stride: u64,
    count: u64,
    block: u64,
    range: Range<u64>,
) -> bool {
    &&& start == range.start
    &&& stride == 1
    &&& block == 1
    &&& count == if range.start < range.end {
        range.end - range.start
    } else {
        0
    }
}

impl Selection {
    /// Whether the parts of the selection fit together: one entry per axis.
    pub open spec fn wf(&self) -> bool {
        match self {
            Selection::All => true,
            Selection::Empty => true,
            Selection::Hyperslab { start, stride, count, block } => {
                &&& stride@.len() == start@.len()
                &&& count@.len() == start@.len()
                &&& block@.len() == start@.len()
            },
            Selection::Points(pts) => forall|i: int|
                0 <= i < pts@.len() ==> (#[trigger] pts@[i])@.len() == pts@[0]@.len(),
        }
    }

    /// The number of axes, where the selection has a say in it.
    pub open spec fn spec_rank(&self) -> Option<nat> {
        match self {
            Selection::All => None,
            Selection::Empty => None,
            Selection::Hyperslab { start, .. } => Some(start@.len()),
            Selection::Points(pts) => if pts@.len() == 0 {
                None
            } else {
                Some(pts@[0]@.len())
            },
        }
    }

    /// Whether the selection has an element in the box of extent `shape` at
    /// `offset`.
    pub open spec fn hits(&self, offset: Seq<u64>, shape: Seq<u64>) -> bool {
        match self {
            Selection::All => true,
            Selection::Empty => false,
            Selection::Hyperslab { start, stride, count, block } => forall|d: int|
                0 <= d < offset.len() ==> #[trigger] axis_hits(
                    start@[d] as int,
                    stride@[d] as int,
                    count@[d] as int,
                    block@[d] as int,
                    offset[d] as int,
                    shape[d] as int,
                ),
            Selection::Points(pts) => exists|i: int|
                0 <= i < pts@.len() && in_box((#[trigger] pts@[i])@, offset, shape),
        }
    }

    /// Whether the selection says which elements it has, and has any.
    pub open spec fn is_listing(&self) -> bool {
        match self {
            Selection::All => false,
            Selection::Empty => false,
            Selection::Hyperslab { start, count, block, .. } => forall|d: int|
                0 <= d < start@.len() ==> #[trigger] count@[d] > 0 && block@[d] > 0,
            Selection::Points(pts) => pts@.len() > 0,
        }
    }

    /// Whether an element that the selection lists has index `limit` or more along
    /// axis `d`. Of a hyperslab, the last element of its last block goes farthest.
    pub open spec fn reaches(&self, d: int, limit: int) -> bool {
        &&& self.is_listing()
        &&& match self {
            Selection::Hyperslab { start, stride, count, block } => start@[d] + (count@[d] - 1)
                * stride@[d] + block@[d] - 1 >= limit,
            Selection::Points(pts) => exists|i: int|
                0 <= i < pts@.len() && (#[trigger] pts@[i])@[d] >= limit,
            _ => false,
        }
    }

    /// Whether an element that the selection lists has index `limit` or more along
    /// axis `d`.
    pub(crate) fn reaches_past(&self, d: usize, limit: u128) -> (r: bool)
        requires
            self.wf(),
            self.spec_rank() is Some ==> d < self.spec_rank()->0,
        ensures
            r == self.reaches(d as int, limit as int),
    {
        match self {
            Selection::All => false,
            Selection::Empty => false,
            Selection::Hyperslab { start, stride, count, block } => {
                let mut e: usize = 0;
                while e < start.len()
                    invariant
                        e <= start@.len(),
                        count@.len() == start@.len(),
                        block@.len() == start@.len(),
                        *self == (Selection::Hyperslab {
                            start: *start,
                            stride: *stride,
                            count: *count,
                            block: *block,
                        }),
                        forall|k: int| 0 <= k < e ==> #[trigger] count@[k] > 0 && block@[k] > 0,
                    decreases start@.len() - e,
                {
                    if count[e] == 0 || block[e] == 0 {
                        assert(!(count@[e as int] > 0 && block@[e as int] > 0));
                        return false;
                    }
                    e = e + 1;
                }
                assert(count@[d as int] > 0 && block@[d as int] > 0);
                let steps: u64 = count[d] - 1;
                let step: u64 = stride[d];
                assert(0 <= steps * step <= 0xffff_ffff_ffff_fffe * 0xffff_ffff_ffff_ffff)
                    by (nonlinear_arith)
                    requires
                        0 <= steps <= 0xffff_ffff_ffff_fffe,
                        0 <= step <= 0xffff_ffff_ffff_ffff,
                ;
                let last: u128 = start[d] as u128 + steps as u128 * step as u128 + (block[d] - 1) as u128;
                last >= limit
            },
            Selection::Points(pts) => {
                let mut i: usize = 0;
                while i < pts.len()
                    invariant
                        i <= pts@.len(),
                        *self == Selection::Points(*pts),
                        forall|j: int| 0 <= j < pts@.len() ==> d < (#[trigger] pts@[j])@.len(),
                        forall|j: int|
                            0 <= j < i ==> (#[trigger] pts@[j])@[d as int] < limit,
                    decreases pts@.len() - i,
                {
                    if pts[i][d] as u128 >= limit {
                        assert(self.is_listing());
                        assert(exists|k: int|
                            0 <= k < pts@.len() && (#[trigger] pts@[k])@[d as int] >= limit as int);
                        return true;
                    }
                    i = i + 1;
                }
                false
            },
        }
    }

    /// The elements with, along each axis, an index in the given range.
    pub fn slice(ranges: &[Range<u64>]) -> (sel: Selection)
        ensures
            sel.wf(),
            sel.spec_rank() == Some(ranges@.len()),
            match sel {
                Selection::Hyperslab { start, stride, count, block } => forall|d: int|
                    0 <= d < ranges@.len() ==> #[trigger] covers_range(
                        start@[d],
                        stride@[d],
                        count@[d],
                        block@[d],
                        ranges@[d],
                    ),
                _ => false,
            },
            forall|d: int| 0 <= d < ranges@.len() ==> #[trigger] sel->start@[d] == ranges@[d].start,
            forall|d: int| 0 <= d < ranges@.len() ==> #[trigger] sel->stride@[d] == 1,
            forall|d: int| 0 <= d < ranges@.len() ==> #[trigger] sel->block@[d] == 1,
            forall|d: int|
                0 <= d < ranges@.len() ==> #[trigger] sel->count@[d] == if ranges@[d].start
                    <= ranges@[d].end {
                    ranges@[d].end - ranges@[d].start
                } else {
                    0
                },
    {
        let mut start: Vec<u64> = Vec::new();
        let mut stride: Vec<u64> = Vec::new();
        let mut count: Vec<u64> = Vec::new();
        let mut block: Vec<u64> = Vec::new();
        let mut d: usize = 0;
        while d < ranges.len()
            invariant
                d <= ranges@.len(),
                start@.len() == d,
                stride@.len() == d,
                count@.len() == d,
                block@.len() == d,
                forall|e: int|
                    0 <= e < d ==> #[trigger] covers_range(
                        start@[e],
                        stride@[e],
                        count@[e],
                        block@[e],
                        ranges@[e],
                    ),
            decreases ranges@.len() - d,
        {
            let from: u64 = ranges[d].start;
            let to: u64 = ranges[d].end;
            let n: u64 = if from < to {
                to - from
            } else {
                0
            };
            start.push(from);
            stride.push(1);
            count.push(n);
            block.push(1);
            d = d + 1;
        }
        assert forall|e: int| 0 <= e < ranges@.len() implies #[trigger] start@[e]
            == ranges@[e].start by {
            assert(covers_range(start@[e], stride@[e], count@[e], block@[e], ranges@[e]));
        }
        assert forall|e: int| 0 <= e < ranges@.len() implies #[trigger] stride@[e] == 1 by {
            assert(covers_range(start@[e], stride@[e], count@[e], block@[e], ranges@[e]));
        }
        assert forall|e: int| 0 <= e < ranges@.len() implies #[trigger] block@[e] == 1 by {
            assert(covers_range(start@[e], stride@[e], count@[e], block@[e], ranges@[e]));
        }
        assert forall|e: int| 0 <= e < ranges@.len() implies #[trigger] count@[e]
            == if ranges@[e].start <= ranges@[e].end {
            ranges@[e].end - ranges@[e].start
        } else {
            0
        } by {
            assert(covers_range(start@[e], stride@[e], count@[e], block@[e], ranges@[e]));
        }
        Selection::Hyperslab { start, stride, count, block }
    }

    /// The number of axes, where the selection has a say in it.
    pub fn rank(&self) -> (r: Option<usize>)
        ensures
            match (r, self.spec_rank()) {
                (Some(a), Some(b)) => a == b,
                (None, None) => true,
                _ => false,
            },
    {
        match self {
            Selection::All => None,
            Selection::Empty => None,
            Selection::Hyperslab { start, .. } => Some(start.len()),
            Selection::Points(pts) => if pts.len() == 0 {
                None
            } else {
                Some(pts[0].len())
            },
        }
    }

    /// Whether the selection has an element in the chunk of extent `shape` at
    /// `offset`.
    pub fn intersects_chunk(&self, offset: &[u64], shape: &[u64]) -> (r: bool)
        requires
            self.wf(),
            offset@.len() == shape@.len(),
            self.spec_rank() is Some ==> self.spec_rank()->0 == offset@.len(),
        ensures
            r == self.hits(offset@, shape@),
    {
        match self {
            Selection::All => true,
            Selection::Empty => false,
            Selection::Hyperslab { start, stride, count, block } => {
                let mut d: usize = 0;
                #[verifier::loop_isolation(false)]
                while d < offset.len()
                    invariant
                        d <= offset@.len() == shape@.len(),
                        start@.len() == offset@.len(),
                        stride@.len() == offset@.len(),
                        count@.len() == offset@.len(),
                        block@.len() == offset@.len(),
                        forall|e: int|
                            0 <= e < d ==> #[trigger] axis_hits(
                                start@[e] as int,
                                stride@[e] as int,
                                count@[e] as int,
                                block@[e] as int,
                                offset@[e] as int,
                                shape@[e] as int,
                            ),
                    decreases offset@.len() - d,
                {
                    if !axis_overlaps(
                        start[d],
                        stride[d],
                        count[d],
                        block[d],
                        offset[d],
                        shape[d],
                    ) {
                        return false;
                    }
                    d = d + 1;
                }
                true
            },
            Selection::Points(pts) => {
                let mut i: usize = 0;
                #[verifier::loop_isolation(false)]
                while i < pts.len()
                    invariant
                        i <= pts@.len(),
                        offset@.len() == shape@.len(),
                        forall|j: int|
                            0 <= j < pts@.len() ==> (#[trigger] pts@[j])@.len() == offset@.len(),
                        forall|j: int|
                            0 <= j < i ==> !in_box((#[trigger] pts@[j])@, offset@, shape@),
                    decreases pts@.len() - i,
                {
                    if box_contains(pts[i].as_slice(), offset, shape) {
                        return true;
                    }
                    i = i + 1;
                }
                false
            },
        }
    }
}

fn box_contains(point: &[u64], offset: &[u64], shape: &[u64]) -> (r: bool)
    requires
        point@.len() == offset@.len(),
        shape@.len() == offset@.len(),
    ensures
        r == in_box(point@, offset@, shape@),
{
    let mut d: usize = 0;
    while d < offset.len()
        invariant
            d <= offset@.len() == shape@.len(),
            point@.len() == offset@.len(),
            forall|e: int|
                0 <= e < d ==> #[trigger] offset@[e] <= point@[e] < offset@[e] + shape@[e],
        decreases offset@.len() - d,
    {
        if point[d] < offset[d] || point[d] - offset[d] >= shape[d] {
            assert(!(offset@[d as int] <= point@[d as int] < offset@[d as int] + shape@[d as int]));
            return false;
        }
        d = d + 1;
    }
    true
}

/// Whether one of the blocks overlaps the `len` elements from `off` on.
fn axis_overlaps(start: u64, stride: u64, count: u64, block: u64, off: u64, len: u64) -> (r: bool)
    ensures
        r == axis_hits(
            start as int,
            stride as int,
            count as int,
            block as int,
            off as int,
            len as int,
        ),
{
    if count == 0 || block == 0 || len == 0 {
        return false;
    }
    // The first block that ends after `off`.
    let reach: u128 = start as u128 + block as u128;
    let first: u128 = if (off as u128) < reach {
        0
    } else if stride == 0 {
        proof {
            assert forall|i: int| !#[trigger] block_hits(
                start as int,
                stride as int,
                count as int,
                block as int,
                off as int,
                len as int,
                i,
            ) by {
                assert(i * stride == 0) by (nonlinear_arith)
                    requires
                        stride == 0,
                ;
            }
        }
        return false;
    } else {
        (off as u128 - reach) / stride as u128 + 1
    };
    proof {
        let f = first as int;
        let st = stride as int;
        if f > 0 {
            let gap = off - reach;
            vstd::arithmetic::div_mod::lemma_fundamental_div_mod(gap as int, st);
            vstd::arithmetic::div_mod::lemma_mod_bound(gap as int, st);
            let q = gap / st;
            assert(f == q + 1);
            assert(st * q <= gap < st * q + st);
            assert(f * st == st * q + st) by (nonlinear_arith)
                requires
                    f == q + 1,
            ;
            assert((f - 1) * st == st * q) by (nonlinear_arith)
                requires
                    f == q + 1,
            ;
            assert(q <= gap) by (nonlinear_arith)
                requires
                    st >= 1,
                    st * q <= gap,
                    q >= 0 || gap >= 0,
            ;
        } else {
            assert(f * st == 0) by (nonlinear_arith)
                requires
                    f == 0,
            ;
        }
        assert(off < start + f * st + block);
        assert forall|i: int| #[trigger] block_hits(
            start as int,
            st,
            count as int,
            block as int,
            off as int,
            len as int,
            i,
        ) implies i >= f && start + f * st <= start + i * st by {
            if i < f {
                assert(i * st <= (f - 1) * st) by (nonlinear_arith)
                    requires
                        i <= f - 1,
                        st >= 0,
                ;
                assert(false);
            }
            assert(f * st <= i * st) by (nonlinear_arith)
                requires
                    f <= i,
                    st >= 0,
            ;
        }
    }
    if first >= count as u128 {
        return false;
    }
    proof {
        let f = first as int;
        assert(f * stride <= (count - 1) * stride) by (nonlinear_arith)
            requires
                f <= count - 1,
                stride >= 0,
        ;
        assert((count - 1) * stride <= 0xffff_ffff_ffff_fffe * 0xffff_ffff_ffff_ffff)
            by (nonlinear_arith)
            requires
                0 <= count - 1 <= 0xffff_ffff_ffff_fffe,
                0 <= stride <= 0xffff_ffff_ffff_ffff,
        ;
        assert(0 <= f * stride) by (nonlinear_arith)
            requires
                f >= 0,
                stride >= 0,
        ;
    }
    let r: bool = start as u128 + first * (stride as u128) < off as u128 + len as u128;
    proof {
        if r {
            assert(block_hits(
                start as int,
                stride as int,
                count as int,
                block as int,
                off as int,
                len as int,
                first as int,
            ));
        }
    }
    r
}

} // verus!
