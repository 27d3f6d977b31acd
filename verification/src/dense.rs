//! Dense attribute and link storage: a fractal heap with a version 2 B-tree
//! over the hashed names.

use crate::bytes::{
    extend, joined, le_bytes, lemma_le_len, push1, push2, push4, push_le, push_zeros, zeros,
};
use crate::checksum::{jenkins_lookup3, lookup3};
use crate::fractal_heap::{
    block_header_len, build_single_block_fractal_heap, heap_bytes, heap_len, id_payload, managed_id,
    object_ids, object_views, packed, placed, FractalHeapBlock,
};
use crate::messages::{attr_bytes, link_bytes, link_views, write_attr, AttrValue, LinkMessage,
    LinkView};
use crate::tree::{lemma_next_pow2, next_pow2, next_power_of_two};
use vstd::prelude::*;
use vstd::utf8::encode_utf8;

verus! {

/// Bytes of a B-tree header.
pub const BTHD_SIZE: u64 = 38;

/// The hash that names are indexed by.
pub open spec fn name_hash(name: Seq<char>) -> u32 {
    lookup3(encode_utf8(name))
}

// ---------------------------------------------------------------------------
// Order of records
// ---------------------------------------------------------------------------

/// How many leading entries of `order` have a hash of at most `h`, if `order` is
/// sorted by hash.
pub open spec fn insert_pos(order: Seq<usize>, hashes: Seq<u32>, h: u32) -> int
    decreases order.len(),
{
    if order.len() == 0 {
        0
    } else if hashes[order.last() as int] <= h {
        order.len() as int
    } else {
        insert_pos(order.drop_last(), hashes, h)
    }
}

/// The numbers below `n`, by hash; equal hashes in their own order.
pub open spec fn sorted_order(hashes: Seq<u32>, n: nat) -> Seq<usize>
    decreases n,
{
    if n == 0 {
        Seq::empty()
    } else {
        let before = sorted_order(hashes, (n - 1) as nat);
        before.insert(insert_pos(before, hashes, hashes[n - 1]), (n - 1) as usize)
    }
}

proof fn lemma_insert_pos(order: Seq<usize>, hashes: Seq<u32>, h: u32)
    ensures
        0 <= insert_pos(order, hashes, h) <= order.len(),
        forall|i: int|
            insert_pos(order, hashes, h) <= i < order.len() ==> hashes[(#[trigger] order[i]) as int]
                > h,
        insert_pos(order, hashes, h) > 0 ==> hashes[order[insert_pos(order, hashes, h) - 1] as int]
            <= h,
    decreases order.len(),
{
    if order.len() > 0 && hashes[order.last() as int] > h {
        let head = order.drop_last();
        lemma_insert_pos(head, hashes, h);
        let p = insert_pos(order, hashes, h);
        assert forall|i: int| p <= i < order.len() implies hashes[(#[trigger] order[i]) as int]
            > h by {
            if i < head.len() {
                assert(head[i] == order[i]);
            }
        }
        if p > 0 {
            assert(head[p - 1] == order[p - 1]);
        }
    }
}

/// Whether entry `a` comes before entry `b`: by hash, then by number.
pub open spec fn comes_before(hashes: Seq<u32>, a: usize, b: usize) -> bool {
    hashes[a as int] < hashes[b as int] || (hashes[a as int] == hashes[b as int] && a < b)
}

/// The records of an index are sorted by hash, equal hashes by number, and have
/// every number once.
pub proof fn law_records_are_sorted(hashes: Seq<u32>, n: nat)
    requires
        n <= hashes.len(),
        n <= usize::MAX,
    ensures
        sorted_order(hashes, n).len() == n,
        forall|i: int, j: int|
            0 <= i < j < n ==> comes_before(
                hashes,
                #[trigger] sorted_order(hashes, n)[i],
                #[trigger] sorted_order(hashes, n)[j],
            ),
        forall|x: usize| #[trigger] sorted_order(hashes, n).contains(x) <==> x < n,
    decreases n,
{
    if n > 0 {
        let before = sorted_order(hashes, (n - 1) as nat);
        let h = hashes[n - 1];
        let p = insert_pos(before, hashes, h);
        let after = before.insert(p, (n - 1) as usize);
        law_records_are_sorted(hashes, (n - 1) as nat);
        lemma_insert_pos(before, hashes, h);
        assert forall|i: int| 0 <= i < before.len() implies (#[trigger] before[i]) < n - 1 by {
            assert(before.contains(before[i]));
        }
        assert forall|i: int, j: int| 0 <= i < j < n implies comes_before(
            hashes,
            #[trigger] after[i],
            #[trigger] after[j],
        ) by {
            if j == p {
                assert(after[i] == before[i]);
                if i < p - 1 {
                    assert(comes_before(hashes, before[i], before[p - 1]));
                }
            } else if i == p {
                assert(after[j] == before[j - 1]);
            } else {
                let a = if i < p {
                    i
                } else {
                    i - 1
                };
                let b = if j < p {
                    j
                } else {
                    j - 1
                };
                assert(after[i] == before[a] && after[j] == before[b]);
            }
        }
        assert forall|x: usize| #[trigger] after.contains(x) <==> x < n by {
            if x < n - 1 {
                assert(before.contains(x));
                let i = choose|i: int| 0 <= i < before.len() && before[i] == x;
                if i < p {
                    assert(after[i] == x);
                } else {
                    assert(after[i + 1] == x);
                }
            } else if x == n - 1 {
                assert(after[p] == x);
            }
            if after.contains(x) {
                let i = choose|i: int| 0 <= i < after.len() && after[i] == x;
                if i < p {
                    assert(before[i] == x);
                } else if i > p {
                    assert(before[i - 1] == x);
                }
            }
        }
    } else {
        assert forall|x: usize| #[trigger]
            sorted_order(hashes, n).contains(x) <==> x < n by {}
    }
}

fn sort_by_hash(hashes: &Vec<u32>) -> (order: Vec<usize>)
    ensures
        order@ == sorted_order(hashes@, hashes@.len()),
{
    let mut order: Vec<usize> = Vec::new();
    let mut n: usize = 0;
    while n < hashes.len()
        invariant
            n <= hashes@.len(),
            order@ == sorted_order(hashes@, n as nat),
            order@.len() == n,
            forall|i: int| 0 <= i < n ==> (#[trigger] order@[i]) < n,
        decreases hashes@.len() - n,
    {
        let h: u32 = hashes[n];
        let ghost whole = order@;
        let mut p: usize = n;
        assert(whole.take(n as int) =~= whole);
        while p > 0 && hashes[order[p - 1]] > h
            invariant
                p <= n < hashes@.len(),
                order@ == whole,
                whole.len() == n,
                forall|i: int| 0 <= i < n ==> (#[trigger] whole[i]) < n,
                insert_pos(whole.take(p as int), hashes@, h) == insert_pos(whole, hashes@, h),
            decreases p,
        {
            proof {
                assert(whole.take(p as int).drop_last() =~= whole.take(p - 1));
                assert(whole.take(p as int).last() == whole[p - 1]);
            }
            p = p - 1;
        }
        proof {
            if p > 0 {
                assert(whole.take(p as int).last() == whole[p - 1]);
            }
            assert(insert_pos(whole, hashes@, h) == p);
        }
        order.insert(p, n);
        n = n + 1;
        assert forall|i: int| 0 <= i < n implies (#[trigger] order@[i]) < n by {
            if i < p {
                assert(order@[i] == whole[i]);
            } else if i > p {
                assert(order@[i] == whole[i - 1]);
            }
        }
    }
    order
}

/// `recs` in the given order.
pub open spec fn reordered(recs: Seq<Seq<u8>>, order: Seq<usize>) -> Seq<Seq<u8>> {
    Seq::new(order.len(), |i: int| recs[order[i] as int])
}

// ---------------------------------------------------------------------------
// B-trees of one leaf
// ---------------------------------------------------------------------------

/// Bytes of a leaf with `len` bytes of records: a power of two, at least 512.
pub open spec fn node_size(len: nat) -> nat {
    let need = next_pow2(10 + len);
    if need <= 512 {
        512
    } else {
        need
    }
}

/// The header of a B-tree without its checksum.
pub open spec fn btree_header_fields(
    kind: u8,
    node: nat,
    record_size: u16,
    leaf_addr: nat,
    n: nat,
) -> Seq<u8> {
    seq![0x42u8, 0x54, 0x48, 0x44] + seq![0u8, kind] + le_bytes(node, 4) + le_bytes(
        record_size as nat,
        2,
    ) + le_bytes(0, 2) + seq![100u8, 40u8] + le_bytes(leaf_addr, 8) + le_bytes(n, 2) + le_bytes(n, 8)
}

/// The leaf of a B-tree without checksum and padding.
pub open spec fn btree_leaf_fields(kind: u8, records: Seq<u8>) -> Seq<u8> {
    seq![0x42u8, 0x54, 0x4c, 0x46] + seq![0u8, kind] + records
}

/// A B-tree at `addr` of one leaf with `n` records. The leaf's checksum follows
/// its records; the padding is not covered.
pub open spec fn btree_bytes(kind: u8, addr: u64, record_size: u16, records: Seq<u8>, n: nat) -> Seq<
    u8,
> {
    let node = node_size(records.len());
    let head = btree_header_fields(kind, node, record_size, addr as nat + BTHD_SIZE as nat, n);
    let leaf = btree_leaf_fields(kind, records);
    head + le_bytes(lookup3(head) as nat, 4) + leaf + le_bytes(lookup3(leaf) as nat, 4) + zeros(
        (node - 10 - records.len()) as nat,
    )
}

pub proof fn lemma_btree_len(kind: u8, addr: u64, record_size: u16, records: Seq<u8>, n: nat)
    ensures
        btree_bytes(kind, addr, record_size, records, n).len() == BTHD_SIZE as nat + node_size(
            records.len(),
        ),
        node_size(records.len()) >= 10 + records.len(),
{
    let node = node_size(records.len());
    let head = btree_header_fields(kind, node, record_size, addr as nat + BTHD_SIZE as nat, n);
    let leaf = btree_leaf_fields(kind, records);
    lemma_next_pow2(10 + records.len());
    lemma_le_len(node, 4);
    lemma_le_len(record_size as nat, 2);
    lemma_le_len(0, 2);
    lemma_le_len(addr as nat + BTHD_SIZE as nat, 8);
    lemma_le_len(n, 2);
    lemma_le_len(n, 8);
    lemma_le_len(lookup3(head) as nat, 4);
    lemma_le_len(lookup3(leaf) as nat, 4);
}

/// Builds a B-tree of one leaf.
pub fn build_btree(kind: u8, addr: u64, record_size: u16, records: &[u8], n: usize) -> (r: Vec<u8>)
    requires
        addr + BTHD_SIZE + node_size(records@.len()) <= isize::MAX,
    ensures
        r@ == btree_bytes(kind, addr, record_size, records@, n as nat),
{
    proof {
        lemma_btree_len(kind, addr, record_size, records@, n as nat);
    }
    let len: usize = records.len();
    let need: usize = next_power_of_two(10 + len);
    let node: usize = if need <= 512 {
        512
    } else {
        need
    };
    let mut head: Vec<u8> = Vec::new();
    push4(&mut head, 0x42, 0x54, 0x48, 0x44);
    assert(head@ =~= seq![0x42u8, 0x54, 0x48, 0x44]);
    push2(&mut head, 0, kind);
    push_le(&mut head, node as u64, 4);
    push_le(&mut head, record_size as u64, 2);
    push_le(&mut head, 0, 2);
    push2(&mut head, 100, 40);
    push_le(&mut head, addr + BTHD_SIZE, 8);
    push_le(&mut head, n as u64, 2);
    push_le(&mut head, n as u64, 8);
    let head_sum: u32 = jenkins_lookup3(head.as_slice());
    let mut leaf: Vec<u8> = Vec::new();
    push4(&mut leaf, 0x42, 0x54, 0x4c, 0x46);
    assert(leaf@ =~= seq![0x42u8, 0x54, 0x4c, 0x46]);
    push2(&mut leaf, 0, kind);
    extend(&mut leaf, records);
    let leaf_sum: u32 = jenkins_lookup3(leaf.as_slice());
    let mut out: Vec<u8> = head;
    push_le(&mut out, head_sum as u64, 4);
    extend(&mut out, leaf.as_slice());
    push_le(&mut out, leaf_sum as u64, 4);
    push_zeros(&mut out, node - 10 - len);
    out
}

// ---------------------------------------------------------------------------
// Lengths do not depend on contents
// ---------------------------------------------------------------------------

/// Whether two lists of byte strings have the same lengths.
pub open spec fn same_lengths(a: Seq<Seq<u8>>, b: Seq<Seq<u8>>) -> bool {
    a.len() == b.len() && forall|i: int|
        0 <= i < a.len() ==> (#[trigger] a[i]).len() == b[i].len()
}

proof fn lemma_joined_same(a: Seq<Seq<u8>>, b: Seq<Seq<u8>>)
    requires
        same_lengths(a, b),
    ensures
        joined(a).len() == joined(b).len(),
    decreases a.len(),
{
    if a.len() > 0 {
        let a1 = a.drop_last();
        let b1 = b.drop_last();
        assert(same_lengths(a1, b1)) by {
            assert forall|i: int| 0 <= i < a1.len() implies (#[trigger] a1[i]).len()
                == b1[i].len() by {
                assert(a[i].len() == b[i].len());
            }
        }
        lemma_joined_same(a1, b1);
        assert(a[a.len() - 1].len() == b[b.len() - 1].len());
    }
}

proof fn lemma_packed_same(a: Seq<Seq<u8>>, b: Seq<Seq<u8>>, header: nat, n: int)
    requires
        same_lengths(a, b),
        0 <= n <= a.len(),
    ensures
        same_lengths(packed(a, header, n), packed(b, header, n)),
    decreases n,
{
    reveal(crate::fractal_heap::placed);
    if n > 0 {
        lemma_packed_same(a, b, header, n - 1);
        let pa = packed(a, header, n - 1);
        let pb = packed(b, header, n - 1);
        assert(a[n - 1].len() == b[n - 1].len());
        if pa.len() > 0 {
            assert(pa[pa.len() - 1].len() == pb[pb.len() - 1].len());
        }
        let qa = placed(pa, header, a[n - 1]);
        let qb = placed(pb, header, b[n - 1]);
        assert forall|i: int| 0 <= i < qa.len() implies (#[trigger] qa[i]).len() == qb[i].len() by {
            if i < pa.len() {
                assert(pa[i].len() == pb[i].len());
            }
        }
    }
}

/// The size of a heap depends on the sizes of its objects alone.
pub proof fn lemma_heap_len_same(a: Seq<Seq<u8>>, b: Seq<Seq<u8>>, max_heap_size: u16)
    requires
        same_lengths(a, b),
    ensures
        heap_len(a, max_heap_size) == heap_len(b, max_heap_size),
{
    lemma_joined_same(a, b);
    lemma_packed_same(a, b, block_header_len(max_heap_size), a.len() as int);
}

pub proof fn lemma_joined_uniform(s: Seq<Seq<u8>>, size: nat)
    requires
        forall|i: int| 0 <= i < s.len() ==> (#[trigger] s[i]).len() == size,
    ensures
        joined(s).len() == s.len() * size,
    decreases s.len(),
{
    if s.len() > 0 {
        let t = s.drop_last();
        assert forall|i: int| 0 <= i < t.len() implies (#[trigger] t[i]).len() == size by {
            assert(t[i] == s[i]);
        }
        lemma_joined_uniform(t, size);
        assert(s[s.len() - 1].len() == size);
        assert((s.len() - 1) * size + size == s.len() * size) by (nonlinear_arith)
            requires
                s.len() >= 1,
        ;
    } else {
        assert(0 * size == 0) by (nonlinear_arith);
    }
}

pub(crate) proof fn lemma_id_len(offset: u64, length: u64, max_heap_size: u16, id_length: u16)
    requires
        id_length >= 1,
    ensures
        managed_id(offset, length, max_heap_size, id_length).len() == id_length,
{
    lemma_le_len(
        crate::fractal_heap::combined_id(offset, length, max_heap_size) as nat,
        id_payload(id_length),
    );
}

// ---------------------------------------------------------------------------
// Dense attributes
// ---------------------------------------------------------------------------

/// The attribute messages of a list of attributes.
pub open spec fn attr_messages(attrs: Seq<(String, AttrValue)>, v3: bool) -> Seq<Seq<u8>> {
    Seq::new(attrs.len(), |i: int| attr_bytes(attrs[i].0@, attrs[i].1, v3))
}

/// The hashes of the attributes' names.
pub open spec fn attr_hashes(attrs: Seq<(String, AttrValue)>) -> Seq<u32> {
    Seq::new(attrs.len(), |i: int| name_hash(attrs[i].0@))
}

/// The index record of an attribute: identifier, flags, creation order, hash.
pub open spec fn attr_record(id: Seq<u8>, i: nat, hash: u32) -> Seq<u8> {
    id + seq![0u8] + le_bytes(i, 4) + le_bytes(hash as nat, 4)
}

/// The index records of the attributes, in their own order.
pub open spec fn attr_records(attrs: Seq<(String, AttrValue)>) -> Seq<Seq<u8>> {
    let ids = object_ids(attr_messages(attrs, true), 40, 8);
    let hashes = attr_hashes(attrs);
    Seq::new(attrs.len(), |i: int| attr_record(ids[i], i as nat, hashes[i]))
}

/// Dense storage of attributes at `base`.
pub open spec fn dense_attr_bytes(attrs: Seq<(String, AttrValue)>, base: u64) -> Seq<u8> {
    let objs = attr_messages(attrs, true);
    let order = sorted_order(attr_hashes(attrs), attrs.len());
    heap_bytes(objs, base, 40, 8) + btree_bytes(
        8,
        (base + heap_len(objs, 40)) as u64,
        17,
        joined(reordered(attr_records(attrs), order)),
        attrs.len(),
    )
}

/// Bytes of dense storage of attributes.
pub open spec fn dense_attr_len(attrs: Seq<(String, AttrValue)>) -> nat {
    heap_len(attr_messages(attrs, true), 40) + BTHD_SIZE as nat + node_size(attrs.len() * 17)
}

/// The message that leads to a heap and its index.
pub open spec fn info_bytes(heap_addr: u64, btree_addr: u64) -> Seq<u8> {
    seq![0u8, 0u8] + le_bytes(heap_addr as nat, 8) + le_bytes(btree_addr as nat, 8)
}

/// The attribute information message of dense attributes at `base`.
pub open spec fn dense_attr_info(attrs: Seq<(String, AttrValue)>, base: u64) -> Seq<u8> {
    info_bytes(base, (base + heap_len(attr_messages(attrs, true), 40)) as u64)
}

/// Dense attribute storage and the message that leads to it.
pub struct DenseAttrBlob {
    pub attr_info_message: Vec<u8>,
    pub blob: Vec<u8>,
}

/// Whether `b` stores `attrs` at `base`.
pub open spec fn is_dense_attrs(
    b: DenseAttrBlob,
    attrs: Seq<(String, AttrValue)>,
    base: u64,
) -> bool {
    &&& b.attr_info_message@ == dense_attr_info(attrs, base)
    &&& b.blob@ == dense_attr_bytes(attrs, base)
    &&& b.blob@.len() == dense_attr_len(attrs)
}

/// Writes a message that leads to a heap and its index.
pub fn write_info(heap_addr: u64, btree_addr: u64) -> (r: Vec<u8>)
    ensures
        r@ == info_bytes(heap_addr, btree_addr),
{
    let mut data: Vec<u8> = Vec::new();
    push2(&mut data, 0, 0);
    push_le(&mut data, heap_addr, 8);
    push_le(&mut data, btree_addr, 8);
    assert(data@ =~= info_bytes(heap_addr, btree_addr));
    data
}

/// `recs` in the given order, one after another.
fn join_in_order(recs: &Vec<Vec<u8>>, order: &Vec<usize>) -> (r: Vec<u8>)
    requires
        forall|i: int| 0 <= i < order@.len() ==> (#[trigger] order@[i]) < recs@.len(),
    ensures
        r@ == joined(reordered(object_views(recs@), order@)),
{
    let ghost parts = reordered(object_views(recs@), order@);
    let mut out: Vec<u8> = Vec::new();
    let mut i: usize = 0;
    assert(parts.take(0) =~= Seq::empty());
    while i < order.len()
        invariant
            i <= order@.len(),
            forall|j: int| 0 <= j < order@.len() ==> (#[trigger] order@[j]) < recs@.len(),
            parts == reordered(object_views(recs@), order@),
            out@ == joined(parts.take(i as int)),
        decreases order@.len() - i,
    {
        proof {
            assert(parts.take(i + 1).drop_last() =~= parts.take(i as int));
            assert(parts.take(i + 1).last() == recs@[order@[i as int] as int]@);
        }
        extend(&mut out, recs[order[i]].as_slice());
        i = i + 1;
    }
    assert(parts.take(i as int) =~= parts);
    out
}

pub(crate) proof fn lemma_order_in_range(hashes: Seq<u32>, n: nat)
    requires
        n <= hashes.len(),
        n <= usize::MAX,
    ensures
        sorted_order(hashes, n).len() == n,
        forall|i: int| 0 <= i < n ==> (#[trigger] sorted_order(hashes, n)[i]) < n,
{
    law_records_are_sorted(hashes, n);
    let order = sorted_order(hashes, n);
    assert forall|i: int| 0 <= i < n implies (#[trigger] order[i]) < n by {
        assert(order.contains(order[i]));
    }
}

pub(crate) proof fn lemma_attr_records_len(attrs: Seq<(String, AttrValue)>)
    requires
        attrs.len() <= usize::MAX,
    ensures
        joined(
            reordered(attr_records(attrs), sorted_order(attr_hashes(attrs), attrs.len())),
        ).len() == attrs.len() * 17,
{
    let order = sorted_order(attr_hashes(attrs), attrs.len());
    lemma_order_in_range(attr_hashes(attrs), attrs.len());
    let parts = reordered(attr_records(attrs), order);
    let ids = object_ids(attr_messages(attrs, true), 40, 8);
    let objs = attr_messages(attrs, true);
    assert forall|i: int| 0 <= i < parts.len() implies (#[trigger] parts[i]).len() == 17 by {
        let k = order[i] as int;
        lemma_id_len(
            crate::fractal_heap::object_offset(objs, 40, k) as u64,
            objs[k].len() as u64,
            40,
            8,
        );
        lemma_le_len(k as nat, 4);
        lemma_le_len(attr_hashes(attrs)[k] as nat, 4);
        assert(ids[k].len() == 8);
    }
    lemma_joined_uniform(parts, 17);
}

fn write_attr_records(ids: &Vec<Vec<u8>>, hashes: &Vec<u32>) -> (recs: Vec<Vec<u8>>)
    requires
        ids@.len() == hashes@.len(),
    ensures
        recs@.len() == ids@.len(),
        forall|i: int|
            0 <= i < recs@.len() ==> (#[trigger] recs@[i])@ == attr_record(
                ids@[i]@,
                i as nat,
                hashes@[i],
            ),
{
    let mut recs: Vec<Vec<u8>> = Vec::new();
    let mut k: usize = 0;
    while k < ids.len()
        invariant
            k <= ids@.len() == hashes@.len(),
            recs@.len() == k,
            forall|i: int|
                0 <= i < k ==> (#[trigger] recs@[i])@ == attr_record(
                    ids@[i]@,
                    i as nat,
                    hashes@[i],
                ),
        decreases ids@.len() - k,
    {
        let mut rec: Vec<u8> = Vec::new();
        extend(&mut rec, ids[k].as_slice());
        push1(&mut rec, 0);
        push_le(&mut rec, k as u64, 4);
        push_le(&mut rec, hashes[k] as u64, 4);
        assert(rec@ =~= attr_record(ids@[k as int]@, k as nat, hashes@[k as int]));
        recs.push(rec);
        k = k + 1;
    }
    recs
}

/// Builds dense storage for `attrs` at `base_address`.
pub fn build_dense_attrs(attrs: &[(String, AttrValue)], base_address: u64) -> (b: DenseAttrBlob)
    requires
        base_address + dense_attr_len(attrs@) <= isize::MAX,
    ensures
        is_dense_attrs(b, attrs@, base_address),
{
    let mut serialized: Vec<Vec<u8>> = Vec::new();
    let mut hashes: Vec<u32> = Vec::new();
    let mut i: usize = 0;
    while i < attrs.len()
        invariant
            i <= attrs@.len(),
            serialized@.len() == i,
            hashes@.len() == i,
            forall|j: int|
                0 <= j < i ==> (#[trigger] serialized@[j])@ == attr_messages(attrs@, true)[j],
            forall|j: int| 0 <= j < i ==> #[trigger] hashes@[j] == attr_hashes(attrs@)[j],
        decreases attrs@.len() - i,
    {
        serialized.push(write_attr(attrs[i].0.as_str(), &attrs[i].1, true));
        hashes.push(jenkins_lookup3(attrs[i].0.as_str().as_bytes()));
        i = i + 1;
    }
    let ghost objs = attr_messages(attrs@, true);
    proof {
        assert(object_views(serialized@) =~= objs);
        assert(hashes@ =~= attr_hashes(attrs@));
        lemma_attr_records_len(attrs@);
    }
    // Attribute heaps have offsets of 40 bits and identifiers of 8 bytes.
    let heap: FractalHeapBlock = build_single_block_fractal_heap(
        serialized.as_slice(),
        base_address,
        40,
        8,
    );
    let ghost ids = object_ids(objs, 40, 8);
    assert(heap.heap_ids@.len() == object_views(heap.heap_ids@).len());
    let recs: Vec<Vec<u8>> = write_attr_records(&heap.heap_ids, &hashes);
    proof {
        assert forall|i: int| 0 <= i < attrs@.len() implies heap.heap_ids@[i]@
            == #[trigger] ids[i] by {
            assert(object_views(heap.heap_ids@)[i] == heap.heap_ids@[i]@);
        }
    }
    assert(object_views(recs@) =~= attr_records(attrs@));
    let order: Vec<usize> = sort_by_hash(&hashes);
    proof {
        lemma_order_in_range(hashes@, hashes@.len());
    }
    let records: Vec<u8> = join_in_order(&recs, &order);
    let btree: Vec<u8> = build_btree(8, heap.btree_addr, 17, records.as_slice(), attrs.len());
    proof {
        lemma_btree_len(8, heap.btree_addr, 17, records@, attrs@.len());
    }
    let info: Vec<u8> = write_info(heap.frhp_addr, heap.btree_addr);
    let mut blob: Vec<u8> = heap.blob;
    extend(&mut blob, btree.as_slice());
    DenseAttrBlob { attr_info_message: info, blob }
}

// ---------------------------------------------------------------------------
// Dense links
// ---------------------------------------------------------------------------

/// The link messages of a list of links.
pub open spec fn link_messages(links: Seq<LinkView>) -> Seq<Seq<u8>> {
    Seq::new(links.len(), |i: int| link_bytes(links[i]))
}

/// The hashes of the links' names.
pub open spec fn link_hashes(links: Seq<LinkView>) -> Seq<u32> {
    Seq::new(links.len(), |i: int| name_hash(links[i].name()))
}

/// The index records of the links, in their own order: hash, identifier.
pub open spec fn link_records(links: Seq<LinkView>) -> Seq<Seq<u8>> {
    let ids = object_ids(link_messages(links), 32, 7);
    let hashes = link_hashes(links);
    Seq::new(links.len(), |i: int| le_bytes(hashes[i] as nat, 4) + ids[i])
}

/// Dense storage of links at `base`.
pub open spec fn dense_link_bytes(links: Seq<LinkView>, base: u64) -> Seq<u8> {
    let objs = link_messages(links);
    let order = sorted_order(link_hashes(links), links.len());
    heap_bytes(objs, base, 32, 7) + btree_bytes(
        5,
        (base + heap_len(objs, 32)) as u64,
        11,
        joined(reordered(link_records(links), order)),
        links.len(),
    )
}

/// Bytes of dense storage of links.
pub open spec fn dense_link_len(links: Seq<LinkView>) -> nat {
    heap_len(link_messages(links), 32) + BTHD_SIZE as nat + node_size(links.len() * 11)
}

/// The link information message of dense links at `base`.
pub open spec fn dense_link_info(links: Seq<LinkView>, base: u64) -> Seq<u8> {
    info_bytes(base, (base + heap_len(link_messages(links), 32)) as u64)
}

/// Dense link storage and the message that leads to it.
pub struct DenseLinkBlob {
    pub link_info_message: Vec<u8>,
    pub blob: Vec<u8>,
}

/// Whether `b` stores `links` at `base`.
pub open spec fn is_dense_links(b: DenseLinkBlob, links: Seq<LinkView>, base: u64) -> bool {
    &&& b.link_info_message@ == dense_link_info(links, base)
    &&& b.blob@ == dense_link_bytes(links, base)
    &&& b.blob@.len() == dense_link_len(links)
}

pub(crate) proof fn lemma_link_records_len(links: Seq<LinkView>)
    requires
        links.len() <= usize::MAX,
    ensures
        joined(
            reordered(link_records(links), sorted_order(link_hashes(links), links.len())),
        ).len() == links.len() * 11,
{
    let order = sorted_order(link_hashes(links), links.len());
    lemma_order_in_range(link_hashes(links), links.len());
    let parts = reordered(link_records(links), order);
    let objs = link_messages(links);
    let ids = object_ids(objs, 32, 7);
    assert forall|i: int| 0 <= i < parts.len() implies (#[trigger] parts[i]).len() == 11 by {
        let k = order[i] as int;
        lemma_id_len(
            crate::fractal_heap::object_offset(objs, 32, k) as u64,
            objs[k].len() as u64,
            32,
            7,
        );
        lemma_le_len(link_hashes(links)[k] as nat, 4);
        assert(ids[k].len() == 7);
    }
    lemma_joined_uniform(parts, 11);
}

fn write_link_records(ids: &Vec<Vec<u8>>, hashes: &Vec<u32>) -> (recs: Vec<Vec<u8>>)
    requires
        ids@.len() == hashes@.len(),
    ensures
        recs@.len() == ids@.len(),
        forall|i: int|
            0 <= i < recs@.len() ==> (#[trigger] recs@[i])@ == le_bytes(hashes@[i] as nat, 4)
                + ids@[i]@,
{
    let mut recs: Vec<Vec<u8>> = Vec::new();
    let mut k: usize = 0;
    while k < ids.len()
        invariant
            k <= ids@.len() == hashes@.len(),
            recs@.len() == k,
            forall|i: int|
                0 <= i < k ==> (#[trigger] recs@[i])@ == le_bytes(hashes@[i] as nat, 4) + ids@[i]@,
        decreases ids@.len() - k,
    {
        let mut rec: Vec<u8> = Vec::new();
        push_le(&mut rec, hashes[k] as u64, 4);
        extend(&mut rec, ids[k].as_slice());
        assert(rec@ =~= le_bytes(hashes@[k as int] as nat, 4) + ids@[k as int]@);
        recs.push(rec);
        k = k + 1;
    }
    recs
}

/// Builds dense storage for `links` at `base_address`.
pub fn build_dense_links(links: &[LinkMessage], base_address: u64) -> (b: DenseLinkBlob)
    requires
        base_address + dense_link_len(link_views(links@)) <= isize::MAX,
    ensures
        is_dense_links(b, link_views(links@), base_address),
{
    let ghost views = link_views(links@);
    let mut serialized: Vec<Vec<u8>> = Vec::new();
    let mut hashes: Vec<u32> = Vec::new();
    let mut i: usize = 0;
    while i < links.len()
        invariant
            i <= links@.len(),
            views == link_views(links@),
            serialized@.len() == i,
            hashes@.len() == i,
            forall|j: int|
                0 <= j < i ==> (#[trigger] serialized@[j])@ == link_messages(views)[j],
            forall|j: int| 0 <= j < i ==> #[trigger] hashes@[j] == link_hashes(views)[j],
        decreases links@.len() - i,
    {
        serialized.push(links[i].serialize());
        hashes.push(jenkins_lookup3(links[i].name.as_str().as_bytes()));
        i = i + 1;
    }
    let ghost objs = link_messages(views);
    proof {
        assert(object_views(serialized@) =~= objs);
        assert(hashes@ =~= link_hashes(views));
        lemma_link_records_len(views);
    }
    // Link heaps have offsets of 32 bits and identifiers of 7 bytes.
    let heap: FractalHeapBlock = build_single_block_fractal_heap(
        serialized.as_slice(),
        base_address,
        32,
        7,
    );
    let ghost ids = object_ids(objs, 32, 7);
    assert(heap.heap_ids@.len() == object_views(heap.heap_ids@).len());
    let recs: Vec<Vec<u8>> = write_link_records(&heap.heap_ids, &hashes);
    proof {
        assert forall|i: int| 0 <= i < links@.len() implies heap.heap_ids@[i]@
            == #[trigger] ids[i] by {
            assert(object_views(heap.heap_ids@)[i] == heap.heap_ids@[i]@);
        }
    }
    assert(object_views(recs@) =~= link_records(views));
    let order: Vec<usize> = sort_by_hash(&hashes);
    proof {
        lemma_order_in_range(hashes@, hashes@.len());
    }
    let records: Vec<u8> = join_in_order(&recs, &order);
    let btree: Vec<u8> = build_btree(5, heap.btree_addr, 11, records.as_slice(), links.len());
    proof {
        lemma_btree_len(5, heap.btree_addr, 11, records@, links@.len());
    }
    let info: Vec<u8> = write_info(heap.frhp_addr, heap.btree_addr);
    let mut blob: Vec<u8> = heap.blob;
    extend(&mut blob, btree.as_slice());
    DenseLinkBlob { link_info_message: info, blob }
}

// ---------------------------------------------------------------------------
// Sizes
// ---------------------------------------------------------------------------

/// The size of dense attribute storage does not depend on where it stands.
pub proof fn lemma_dense_attr_len(attrs: Seq<(String, AttrValue)>, base: u64)
    requires
        dense_attr_len(attrs) <= isize::MAX,
    ensures
        dense_attr_bytes(attrs, base).len() == dense_attr_len(attrs),
{
    let objs = attr_messages(attrs, true);
    lemma_next_pow2(10 + attrs.len() * 17);
    lemma_attr_records_len(attrs);
    crate::fractal_heap::lemma_heap_bytes_len(objs, base, 40, 8);
    lemma_btree_len(
        8,
        (base + heap_len(objs, 40)) as u64,
        17,
        joined(reordered(attr_records(attrs), sorted_order(attr_hashes(attrs), attrs.len()))),
        attrs.len(),
    );
}

/// The size of dense link storage does not depend on where it stands.
pub proof fn lemma_dense_link_len(links: Seq<LinkView>, base: u64)
    requires
        dense_link_len(links) <= isize::MAX,
    ensures
        dense_link_bytes(links, base).len() == dense_link_len(links),
{
    let objs = link_messages(links);
    lemma_next_pow2(10 + links.len() * 11);
    lemma_link_records_len(links);
    crate::fractal_heap::lemma_heap_bytes_len(objs, base, 32, 7);
    lemma_btree_len(
        5,
        (base + heap_len(objs, 32)) as u64,
        11,
        joined(reordered(link_records(links), sorted_order(link_hashes(links), links.len()))),
        links.len(),
    );
}

} // verus!
