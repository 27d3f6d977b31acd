//! Columns of a table as datasets: lists of numbers and of texts, written as
//! elements of fixed size and read back.

use crate::builders::{bits32_bytes, DatasetBuilder};
use crate::bytes::{
    copy_range, extend, le64_all, le_bytes, lemma_byte_span, lemma_le64_all_len, lemma_le_len,
    lemma_le_roundtrip, push_le, push_le64_all, push_zeros, zeros,
};
use crate::half::{all_widened, bits16_bytes, half_words, read_halves, write_halves};
use crate::messages::{to_unsigned, twos_complement, Datatype, DatatypeInfo};
use crate::migrate::{blob_to_f32, blob_words, text_views};
use crate::mpi_vol::{long_words, to_long_words};
use crate::text::text_from_utf8;
use vstd::prelude::*;
use vstd::utf8::{
    decode_utf8, encode_utf8, encode_utf8_decode_utf8, encode_utf8_valid_utf8, valid_utf8,
};

verus! {

/// A column.
#[derive(Debug, PartialEq, Eq)]
pub enum Column {
    /// Signed 64-bit integers.
    I64(Vec<i64>),
    /// Signed 32-bit integers.
    I32(Vec<i32>),
    /// 64-bit IEEE 754 numbers, given by their bits.
    F64(Vec<u64>),
    /// 32-bit IEEE 754 numbers, given by their bits.
    F32(Vec<u32>),
    /// 16-bit IEEE 754 numbers, given by their bits.
    F16(Vec<u16>),
    /// Texts.
    Text(Vec<String>),
}

// ---------------------------------------------------------------------------
// Numbers
// ---------------------------------------------------------------------------

/// The signed number with the same 64 bits.
pub open spec fn signed64(v: u64) -> i64 {
    if v < 0x8000_0000_0000_0000 {
        v as i64
    } else {
        (v - 0x1_0000_0000_0000_0000) as i64
    }
}

pub(crate) fn to_signed64(v: u64) -> (r: i64)
    ensures
        r == signed64(v),
{
    if v < 0x8000_0000_0000_0000 {
        v as i64
    } else {
        let below: i64 = (0xffff_ffff_ffff_ffff - v) as i64;
        -below - 1
    }
}

/// The unsigned number with the same 32 bits.
pub open spec fn unsigned32(v: i32) -> u32 {
    if v >= 0 {
        v as u32
    } else {
        (v + 0x1_0000_0000) as u32
    }
}

fn to_unsigned32(v: i32) -> (r: u32)
    ensures
        r == unsigned32(v),
{
    if v >= 0 {
        v as u32
    } else {
        (v as i64 + 0x1_0000_0000) as u32
    }
}

/// The signed number with the same 32 bits.
pub open spec fn signed32(v: u32) -> i32 {
    if v < 0x8000_0000 {
        v as i32
    } else {
        (v - 0x1_0000_0000) as i32
    }
}

fn to_signed32(v: u32) -> (r: i32)
    ensures
        r == signed32(v),
{
    if v < 0x8000_0000 {
        v as i32
    } else {
        (v as i64 - 0x1_0000_0000) as i32
    }
}

/// The words that 64-bit integers are stored as.
pub open spec fn i64_words(v: Seq<i64>) -> Seq<u64> {
    Seq::new(v.len(), |i: int| twos_complement(v[i]) as u64)
}

/// The words that 32-bit integers are stored as.
pub open spec fn i32_words(v: Seq<i32>) -> Seq<u32> {
    Seq::new(v.len(), |i: int| unsigned32(v[i]))
}

/// The 64-bit integers in some bytes.
pub open spec fn i64_values(data: Seq<u8>) -> Seq<i64> {
    Seq::new(long_words(data).len(), |i: int| signed64(long_words(data)[i]))
}

/// The 32-bit integers in some bytes.
pub open spec fn i32_values(data: Seq<u8>) -> Seq<i32> {
    Seq::new(blob_words(data).len(), |i: int| signed32(blob_words(data)[i]))
}

/// Reads 64-bit integers.
pub fn read_i64_values(data: &[u8]) -> (r: Vec<i64>)
    ensures
        r@ == i64_values(data@),
{
    let words: Vec<u64> = to_long_words(data);
    let mut r: Vec<i64> = Vec::new();
    let mut i: usize = 0;
    while i < words.len()
        invariant
            i <= words@.len(),
            words@ == long_words(data@),
            r@.len() == i,
            forall|j: int| 0 <= j < i ==> #[trigger] r@[j] == signed64(words@[j]),
        decreases words@.len() - i,
    {
        r.push(to_signed64(words[i]));
        i = i + 1;
    }
    assert(r@ =~= i64_values(data@));
    r
}

/// Reads 32-bit integers.
pub fn read_i32_values(data: &[u8]) -> (r: Vec<i32>)
    ensures
        r@ == i32_values(data@),
{
    let words: Vec<u32> = blob_to_f32(data);
    let mut r: Vec<i32> = Vec::new();
    let mut i: usize = 0;
    while i < words.len()
        invariant
            i <= words@.len(),
            words@ == blob_words(data@),
            r@.len() == i,
            forall|j: int| 0 <= j < i ==> #[trigger] r@[j] == signed32(words@[j]),
        decreases words@.len() - i,
    {
        r.push(to_signed32(words[i]));
        i = i + 1;
    }
    assert(r@ =~= i32_values(data@));
    r
}

/// Reads 64-bit numbers as bits.
pub fn read_f64_values(data: &[u8]) -> (r: Vec<u64>)
    ensures
        r@ == long_words(data@),
{
    to_long_words(data)
}

/// The bits of 32-bit numbers in some bytes of a type: 16-bit numbers are
/// widened.
pub open spec fn f32_values(data: Seq<u8>, info: Option<DatatypeInfo>) -> Seq<u32> {
    if info == Some(DatatypeInfo { class: 1, size: 2 }) {
        all_widened(half_words(data))
    } else {
        blob_words(data)
    }
}

/// Reads 32-bit numbers as bits, from 32-bit or 16-bit ones.
pub fn read_f32_values(data: &[u8], info: Option<DatatypeInfo>) -> (r: Vec<u32>)
    ensures
        r@ == f32_values(data@, info),
{
    if let Some(i) = info {
        if i.class == 1 && i.size == 2 {
            return read_halves(data);
        }
    }
    blob_to_f32(data)
}

proof fn lemma_le64_word(words: Seq<u64>, i: int)
    requires
        0 <= i < words.len(),
    ensures
        8 * i + 8 <= le64_all(words).len(),
        le64_all(words).subrange(8 * i, 8 * i + 8) == le_bytes(words[i] as nat, 8),
    decreases words.len(),
{
    let rest = words.drop_last();
    lemma_le64_all_len(words);
    lemma_le64_all_len(rest);
    lemma_le_len(words.last() as nat, 8);
    if i < rest.len() {
        lemma_le64_word(rest, i);
        assert(le64_all(words).subrange(8 * i, 8 * i + 8) =~= le64_all(rest).subrange(
            8 * i,
            8 * i + 8,
        ));
    } else {
        assert(le64_all(words).subrange(8 * i, 8 * i + 8) =~= le_bytes(words[i] as nat, 8));
    }
}

/// Reading 64-bit words gives back what was written.
pub proof fn law_long_words_roundtrip(words: Seq<u64>)
    ensures
        long_words(le64_all(words)) == words,
{
    let data = le64_all(words);
    lemma_le64_all_len(words);
    assert forall|i: int| 0 <= i < words.len() implies long_words(data)[i] == words[i] by {
        lemma_le64_word(words, i);
        lemma_byte_span();
        lemma_le_roundtrip(words[i] as nat, 8);
    }
    assert(long_words(data) =~= words);
}

proof fn lemma_le32_word(words: Seq<u32>, i: int)
    requires
        0 <= i <= words.len(),
    ensures
        bits32_bytes(words).len() == 4 * words.len(),
        i < words.len() ==> bits32_bytes(words).subrange(4 * i, 4 * i + 4) == le_bytes(
            words[i] as nat,
            4,
        ),
    decreases words.len(),
{
    if words.len() > 0 {
        let rest = words.drop_last();
        lemma_le_len(words.last() as nat, 4);
        if i < rest.len() {
            lemma_le32_word(rest, i);
            assert(bits32_bytes(words).subrange(4 * i, 4 * i + 4) =~= bits32_bytes(rest).subrange(
                4 * i,
                4 * i + 4,
            ));
        } else {
            lemma_le32_word(rest, rest.len() as int);
            if i < words.len() {
                assert(bits32_bytes(words).subrange(4 * i, 4 * i + 4) =~= le_bytes(
                    words[i] as nat,
                    4,
                ));
            }
        }
    }
}

/// Reading 32-bit words gives back what was written.
pub proof fn law_short_words_roundtrip(words: Seq<u32>)
    ensures
        blob_words(bits32_bytes(words)) == words,
{
    let data = bits32_bytes(words);
    lemma_le32_word(words, words.len() as int);
    assert forall|i: int| 0 <= i < words.len() implies blob_words(data)[i] == words[i] by {
        lemma_le32_word(words, i);
        lemma_byte_span();
        lemma_le_roundtrip(words[i] as nat, 4);
    }
    assert(blob_words(data) =~= words);
}

/// Reading 64-bit integers gives back what was written.
pub proof fn law_i64_roundtrip(v: Seq<i64>)
    ensures
        i64_values(le64_all(i64_words(v))) == v,
{
    law_long_words_roundtrip(i64_words(v));
    assert(i64_values(le64_all(i64_words(v))) =~= v);
}

/// Reading 32-bit integers gives back what was written.
pub proof fn law_i32_roundtrip(v: Seq<i32>)
    ensures
        i32_values(bits32_bytes(i32_words(v))) == v,
{
    law_short_words_roundtrip(i32_words(v));
    assert(i32_values(bits32_bytes(i32_words(v))) =~= v);
}

// ---------------------------------------------------------------------------
// Texts
// ---------------------------------------------------------------------------

/// The length of the longest of the first `n` texts in bytes, at least one.
pub open spec fn text_size(texts: Seq<Seq<char>>, n: int) -> nat
    decreases n,
{
    if n <= 0 {
        1
    } else if encode_utf8(texts[n - 1]).len() > text_size(texts, n - 1) {
        encode_utf8(texts[n - 1]).len()
    } else {
        text_size(texts, n - 1)
    }
}

/// The first `n` texts, each filled up with zeros to `size` bytes.
pub open spec fn padded_texts(texts: Seq<Seq<char>>, size: nat, n: int) -> Seq<u8>
    decreases n,
{
    if n <= 0 {
        Seq::empty()
    } else {
        padded_texts(texts, size, n - 1) + encode_utf8(texts[n - 1]) + zeros(
            (size - encode_utf8(texts[n - 1]).len()) as nat,
        )
    }
}

/// Bytes without the zeros at their end.
pub open spec fn trimmed(s: Seq<u8>) -> Seq<u8>
    decreases s.len(),
{
    if s.len() > 0 && s.last() == 0 {
        trimmed(s.drop_last())
    } else {
        s
    }
}

/// Element `i` of the elements of `size` bytes.
pub open spec fn element(data: Seq<u8>, size: nat, i: int) -> Seq<u8> {
    data.subrange(i * size as int, i * size as int + size as int)
}

/// The texts among elements of `size` bytes, `None` if one is not UTF-8, or the
/// elements have no size.
pub open spec fn text_values(data: Seq<u8>, size: nat) -> Option<Seq<Seq<char>>> {
    if size == 0 {
        None
    } else if forall|i: int|
        0 <= i < data.len() / size ==> valid_utf8(trimmed(#[trigger] element(data, size, i))) {
        Some(
            Seq::new(
                data.len() / size,
                |i: int| decode_utf8(trimmed(element(data, size, i))),
            ),
        )
    } else {
        None
    }
}

fn trim(data: &[u8], from: usize, to: usize) -> (r: Vec<u8>)
    requires
        from <= to <= data@.len(),
    ensures
        r@ == trimmed(data@.subrange(from as int, to as int)),
{
    let ghost whole = data@.subrange(from as int, to as int);
    let mut end: usize = to;
    assert(data@.subrange(from as int, end as int) =~= whole);
    while end > from && data[end - 1] == 0
        invariant
            from <= end <= to <= data@.len(),
            whole == data@.subrange(from as int, to as int),
            trimmed(whole) == trimmed(data@.subrange(from as int, end as int)),
        decreases end,
    {
        assert(data@.subrange(from as int, end as int).drop_last() =~= data@.subrange(
            from as int,
            end - 1,
        ));
        end = end - 1;
    }
    copy_range(data, from, end)
}

/// Reads texts of `size` bytes each.
pub fn read_text_values(data: &[u8], size: u32) -> (r: Option<Vec<String>>)
    ensures
        match text_values(data@, size as nat) {
            Some(texts) => r is Some && text_views(r->0@) == texts,
            None => r is None,
        },
{
    if size == 0 {
        return None;
    }
    let width: usize = size as usize;
    let len: usize = data.len();
    let n: usize = len / width;
    let mut r: Vec<String> = Vec::new();
    let mut i: usize = 0;
    proof {
        vstd::arithmetic::div_mod::lemma_fundamental_div_mod(len as int, width as int);
        vstd::arithmetic::mul::lemma_mul_is_commutative(n as int, width as int);
    }
    while i < n
        invariant
            width == size,
            width > 0,
            len == data@.len(),
            n == len / width,
            n * width <= len,
            i <= n,
            r@.len() == i,
            forall|j: int|
                0 <= j < i ==> valid_utf8(trimmed(#[trigger] element(data@, size as nat, j))),
            forall|j: int|
                0 <= j < i ==> (#[trigger] r@[j])@ == decode_utf8(
                    trimmed(element(data@, size as nat, j)),
                ),
        decreases n - i,
    {
        assert(0 <= i * width && i * width + width <= n * width) by (nonlinear_arith)
            requires
                0 <= i < n,
                0 < width,
        ;
        let from: usize = i * width;
        let bytes: Vec<u8> = trim(data, from, from + width);
        assert(bytes@ == trimmed(element(data@, size as nat, i as int)));
        match text_from_utf8(bytes) {
            Some(text) => {
                r.push(text);
            },
            None => {
                return None;
            },
        }
        i = i + 1;
    }
    assert(text_views(r@) =~= text_values(data@, size as nat)->0);
    Some(r)
}

proof fn lemma_trim_padded(s: Seq<u8>, n: nat)
    requires
        s.len() == 0 || s.last() != 0,
    ensures
        trimmed(s + zeros(n)) == s,
    decreases n,
{
    if n > 0 {
        assert((s + zeros(n)).drop_last() =~= s + zeros((n - 1) as nat));
        lemma_trim_padded(s, (n - 1) as nat);
    } else {
        assert(s + zeros(n) =~= s);
    }
}

pub proof fn lemma_text_size(texts: Seq<Seq<char>>, n: int, i: int)
    requires
        0 <= i < n <= texts.len(),
    ensures
        encode_utf8(texts[i]).len() <= text_size(texts, n),
        text_size(texts, n) >= 1,
    decreases n,
{
    if i < n - 1 {
        lemma_text_size(texts, n - 1, i);
    } else if n > 1 {
        lemma_text_size(texts, n - 1, 0);
    } else {
        assert(text_size(texts, 0) == 1);
    }
}

proof fn lemma_padded_len(texts: Seq<Seq<char>>, size: nat, n: int)
    requires
        0 <= n <= texts.len(),
        forall|i: int| 0 <= i < n ==> encode_utf8(#[trigger] texts[i]).len() <= size,
    ensures
        padded_texts(texts, size, n).len() == n * size,
    decreases n,
{
    if n > 0 {
        lemma_padded_len(texts, size, n - 1);
        assert(encode_utf8(texts[n - 1]).len() <= size);
        assert((n - 1) * size + size == n * size) by (nonlinear_arith);
    } else {
        assert(0 * size == 0);
    }
}

proof fn lemma_padded_element(texts: Seq<Seq<char>>, size: nat, n: int, i: int)
    requires
        0 <= i < n <= texts.len(),
        forall|j: int| 0 <= j < n ==> encode_utf8(#[trigger] texts[j]).len() <= size,
    ensures
        i * size + size <= padded_texts(texts, size, n).len(),
        0 <= i * size,
        element(padded_texts(texts, size, n), size, i) == encode_utf8(texts[i]) + zeros(
            (size - encode_utf8(texts[i]).len()) as nat,
        ),
    decreases n,
{
    lemma_padded_len(texts, size, n);
    lemma_padded_len(texts, size, n - 1);
    assert(0 <= i * size) by (nonlinear_arith)
        requires
            0 <= i,
            0 <= size,
    ;
    assert(i * size + size <= n * size) by (nonlinear_arith)
        requires
            i < n,
            0 <= size,
    ;
    let all = padded_texts(texts, size, n);
    if i < n - 1 {
        lemma_padded_element(texts, size, n - 1, i);
        assert(element(all, size, i) =~= element(padded_texts(texts, size, n - 1), size, i));
    } else {
        assert(element(all, size, i) =~= encode_utf8(texts[i]) + zeros(
            (size - encode_utf8(texts[i]).len()) as nat,
        ));
    }
}

/// Texts stand one behind another in elements of the same size, each as its UTF-8
/// bytes and zeros behind them; the size is that of the longest, and at least one.
pub proof fn law_texts_are_padded(texts: Seq<Seq<char>>, i: int)
    requires
        0 <= i < texts.len(),
    ensures
        ({
            let n = texts.len() as int;
            let size = text_size(texts, n);
            let data = padded_texts(texts, size, n);
            &&& size >= 1
            &&& encode_utf8(texts[i]).len() <= size
            &&& size == 1 || exists|k: int|
                0 <= k < n && encode_utf8(#[trigger] texts[k]).len() == size
            &&& data.len() == n * size
            &&& element(data, size, i) == encode_utf8(texts[i]) + zeros(
                (size - encode_utf8(texts[i]).len()) as nat,
            )
        }),
{
    let n = texts.len() as int;
    let size = text_size(texts, n);
    assert forall|j: int| 0 <= j < n implies encode_utf8(#[trigger] texts[j]).len() <= size by {
        lemma_text_size(texts, n, j);
    }
    lemma_text_size(texts, n, i);
    lemma_padded_len(texts, size, n);
    lemma_padded_element(texts, size, n, i);
    lemma_text_size_taken(texts, n);
}

proof fn lemma_text_size_taken(texts: Seq<Seq<char>>, n: int)
    requires
        0 <= n <= texts.len(),
    ensures
        text_size(texts, n) == 1 || exists|k: int|
            0 <= k < n && encode_utf8(#[trigger] texts[k]).len() == text_size(texts, n),
    decreases n,
{
    if n > 0 {
        lemma_text_size_taken(texts, n - 1);
        if encode_utf8(texts[n - 1]).len() > text_size(texts, n - 1) {
            assert(encode_utf8(texts[n - 1]).len() == text_size(texts, n));
        }
    }
}

/// Reading texts gives back what was written, where none ends in a zero
/// character.
pub proof fn law_texts_roundtrip(texts: Seq<Seq<char>>)
    requires
        forall|i: int|
            0 <= i < texts.len() ==> (encode_utf8(#[trigger] texts[i]).len() == 0 || encode_utf8(
                texts[i],
            ).last() != 0),
    ensures
        text_values(
            padded_texts(texts, text_size(texts, texts.len() as int), texts.len() as int),
            text_size(texts, texts.len() as int),
        ) == Some(texts),
{
    let n = texts.len() as int;
    let size = text_size(texts, n);
    let data = padded_texts(texts, size, n);
    assert forall|i: int| 0 <= i < n implies encode_utf8(#[trigger] texts[i]).len() <= size by {
        lemma_text_size(texts, n, i);
    }
    lemma_padded_len(texts, size, n);
    if n > 0 {
        lemma_text_size(texts, n, 0);
    }
    assert(data.len() / size == n) by {
        vstd::arithmetic::div_mod::lemma_div_multiples_vanish(n, size as int);
        vstd::arithmetic::mul::lemma_mul_is_commutative(n, size as int);
    }
    assert forall|i: int| 0 <= i < n implies valid_utf8(
        trimmed(#[trigger] element(data, size, i)),
    ) && decode_utf8(trimmed(element(data, size, i))) == texts[i] by {
        let e = encode_utf8(texts[i]);
        lemma_padded_element(texts, size, n, i);
        lemma_trim_padded(e, (size - e.len()) as nat);
        encode_utf8_valid_utf8(texts[i]);
        encode_utf8_decode_utf8(texts[i]);
    }
    assert(text_values(data, size)->0 =~= texts);
}

fn longest(texts: &Vec<String>) -> (r: usize)
    ensures
        r == text_size(text_views(texts@), texts@.len() as int),
{
    let ghost views = text_views(texts@);
    let mut max: usize = 1;
    let mut i: usize = 0;
    while i < texts.len()
        invariant
            i <= texts@.len(),
            views == text_views(texts@),
            max == text_size(views, i as int),
        decreases texts@.len() - i,
    {
        assert(views[i as int] == texts@[i as int]@);
        let len: usize = texts[i].as_str().as_bytes().len();
        if len > max {
            max = len;
        }
        i = i + 1;
    }
    max
}

fn pad_texts(texts: &Vec<String>, size: usize) -> (r: Vec<u8>)
    requires
        size == text_size(text_views(texts@), texts@.len() as int),
    ensures
        r@ == padded_texts(text_views(texts@), size as nat, texts@.len() as int),
{
    let ghost views = text_views(texts@);
    let mut r: Vec<u8> = Vec::new();
    let mut i: usize = 0;
    while i < texts.len()
        invariant
            i <= texts@.len(),
            views == text_views(texts@),
            size == text_size(views, texts@.len() as int),
            r@ == padded_texts(views, size as nat, i as int),
        decreases texts@.len() - i,
    {
        proof {
            lemma_text_size(views, texts@.len() as int, i as int);
        }
        assert(views[i as int] == texts@[i as int]@);
        let bytes: &[u8] = texts[i].as_str().as_bytes();
        extend(&mut r, bytes);
        push_zeros(&mut r, size - bytes.len());
        i = i + 1;
    }
    r
}

// ---------------------------------------------------------------------------
// Datasets
// ---------------------------------------------------------------------------

/// What a column holds.
pub enum ColumnView {
    I64(Seq<i64>),
    I32(Seq<i32>),
    F64(Seq<u64>),
    F32(Seq<u32>),
    F16(Seq<u16>),
    Text(Seq<Seq<char>>),
}

impl View for Column {
    type V = ColumnView;

    open spec fn view(&self) -> ColumnView {
        match self {
            Column::I64(v) => ColumnView::I64(v@),
            Column::I32(v) => ColumnView::I32(v@),
            Column::F64(v) => ColumnView::F64(v@),
            Column::F32(v) => ColumnView::F32(v@),
            Column::F16(v) => ColumnView::F16(v@),
            Column::Text(v) => ColumnView::Text(text_views(v@)),
        }
    }
}

impl ColumnView {
    /// How many values there are.
    pub open spec fn count(self) -> nat {
        match self {
            ColumnView::I64(v) => v.len(),
            ColumnView::I32(v) => v.len(),
            ColumnView::F64(v) => v.len(),
            ColumnView::F32(v) => v.len(),
            ColumnView::F16(v) => v.len(),
            ColumnView::Text(v) => v.len(),
        }
    }

    /// The element type. A text longer than a size can say is not told by it.
    pub open spec fn datatype(self) -> Datatype {
        match self {
            ColumnView::I64(_) => Datatype::FixedPoint { size: 8, signed: true },
            ColumnView::I32(_) => Datatype::FixedPoint { size: 4, signed: true },
            ColumnView::F64(_) => Datatype::Float64,
            ColumnView::F32(_) => Datatype::Float32,
            ColumnView::F16(_) => Datatype::Float16,
            ColumnView::Text(v) => Datatype::FixedString {
                size: (text_size(v, v.len() as int) % 0x1_0000_0000) as u32,
            },
        }
    }

    /// The elements.
    pub open spec fn bytes(self) -> Seq<u8> {
        match self {
            ColumnView::I64(v) => le64_all(i64_words(v)),
            ColumnView::I32(v) => bits32_bytes(i32_words(v)),
            ColumnView::F64(v) => le64_all(v),
            ColumnView::F32(v) => bits32_bytes(v),
            ColumnView::F16(v) => bits16_bytes(v),
            ColumnView::Text(v) => padded_texts(v, text_size(v, v.len() as int), v.len() as int),
        }
    }

    /// Whether `d` is the column as a dataset.
    pub open spec fn is_stored(self, d: DatasetBuilder, name: Seq<char>) -> bool {
        &&& d.name@ == name
        &&& d.datatype == Some(self.datatype())
        &&& d.shape is Some
        &&& d.shape->0@ == seq![self.count() as u64]
        &&& d.data is Some
        &&& d.data->0@ == self.bytes()
        &&& d.maxshape is None
        &&& d.attrs@.len() == 0
        &&& d.chunk_options.chunk_dims is None
        &&& !d.compact
        &&& d.virtual_sources is None
    }
}

impl Column {
    fn encode(&self) -> (r: (Datatype, Vec<u8>, usize))
        ensures
            r.0 == self@.datatype(),
            r.1@ == self@.bytes(),
            r.2 == self@.count(),
    {
        let mut data: Vec<u8> = Vec::new();
        match self {
            Column::I64(v) => {
                let mut words: Vec<u64> = Vec::new();
                let mut i: usize = 0;
                while i < v.len()
                    invariant
                        i <= v@.len(),
                        words@.len() == i,
                        forall|j: int|
                            0 <= j < i ==> #[trigger] words@[j] == twos_complement(v@[j]) as u64,
                    decreases v@.len() - i,
                {
                    words.push(to_unsigned(v[i]));
                    i = i + 1;
                }
                assert(words@ =~= i64_words(v@));
                push_le64_all(&mut data, words.as_slice());
                assert(data@ =~= le64_all(words@));
                (Datatype::FixedPoint { size: 8, signed: true }, data, v.len())
            },
            Column::I32(v) => {
                let mut words: Vec<u32> = Vec::new();
                let mut i: usize = 0;
                while i < v.len()
                    invariant
                        i <= v@.len(),
                        words@.len() == i,
                        forall|j: int| 0 <= j < i ==> #[trigger] words@[j] == unsigned32(v@[j]),
                    decreases v@.len() - i,
                {
                    words.push(to_unsigned32(v[i]));
                    i = i + 1;
                }
                assert(words@ =~= i32_words(v@));
                (
                    Datatype::FixedPoint { size: 4, signed: true },
                    write_words(words.as_slice()),
                    v.len(),
                )
            },
            Column::F64(v) => {
                push_le64_all(&mut data, v.as_slice());
                assert(data@ =~= le64_all(v@));
                (Datatype::Float64, data, v.len())
            },
            Column::F32(v) => (Datatype::Float32, write_words(v.as_slice()), v.len()),
            Column::F16(v) => (Datatype::Float16, write_halves(v.as_slice()), v.len()),
            Column::Text(v) => {
                let size: usize = longest(v);
                (
                    Datatype::FixedString { size: (size as u64 % 0x1_0000_0000) as u32 },
                    pad_texts(v, size),
                    v.len(),
                )
            },
        }
    }

    /// Fills a dataset without data.
    pub fn store(&self, d: &mut DatasetBuilder)
        requires
            old(d).is_blank(),
        ensures
            self@.is_stored(*final(d), old(d).name@),
    {
        let (datatype, data, len) = self.encode();
        let mut shape: Vec<u64> = Vec::new();
        shape.push(len as u64);
        assert(shape@ =~= seq![len as u64]);
        d.datatype = Some(datatype);
        d.data = Some(data);
        d.shape = Some(shape);
    }
}

fn write_words(words: &[u32]) -> (r: Vec<u8>)
    ensures
        r@ == bits32_bytes(words@),
{
    let mut data: Vec<u8> = Vec::new();
    let mut i: usize = 0;
    assert(words@.take(0) =~= Seq::empty());
    while i < words.len()
        invariant
            i <= words@.len(),
            data@ == bits32_bytes(words@.take(i as int)),
        decreases words@.len() - i,
    {
        assert(words@.take(i + 1).drop_last() =~= words@.take(i as int));
        push_le(&mut data, words[i] as u64, 4);
        i = i + 1;
    }
    assert(words@.take(i as int) =~= words@);
    data
}

} // verus!
