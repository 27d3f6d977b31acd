//! Comparing what was written with what was to be written.

use crate::error::tells_number;
use crate::migrate::{Entity, MemoryChunk, Relation, Session, SqliteData};
use crate::text::{
    decimal, push_decimal, push_signed_decimal, push_text, same_text, signed_decimal,
};
use vstd::prelude::*;

verus! {

/// How many chunk rows a sample holds.
pub const SAMPLE_ROWS: usize = 16;

/// What a row is.
#[derive(Clone, Copy, PartialEq, Eq, Debug, Structural)]
pub enum RowKind {
    Chunk,
    Session,
    Entity,
    Relation,
}

impl RowKind {
    pub open spec fn spec_name(self) -> Seq<char> {
        match self {
            RowKind::Chunk => "chunk"@,
            RowKind::Session => "session"@,
            RowKind::Entity => "entity"@,
            RowKind::Relation => "relation"@,
        }
    }

    /// The name of the kind, as error messages have it.
    pub fn name(self) -> (r: &'static str)
        ensures
            r@ == self.spec_name(),
    {
        match self {
            RowKind::Chunk => "chunk",
            RowKind::Session => "session",
            RowKind::Entity => "entity",
            RowKind::Relation => "relation",
        }
    }
}

/// The first difference that a comparison came upon.
#[allow(inconsistent_fields)]
#[derive(Clone, Copy, PartialEq, Eq, Debug, Structural)]
pub enum ValidationError {
    Count { kind: RowKind, got: usize, expected: usize },
    Dimension { got: usize, expected: usize },
    ChunkId { index: usize, source: i64, got: i64 },
    ChunkText { index: usize },
    ChunkStrings { index: usize },
    ChunkDeleted { index: usize, source: i32, got: i32 },
    EmbeddingLength { index: usize, source: usize, got: usize },
    EmbeddingValue { index: usize, position: usize },
    /// A session, an entity or a relation that differs.
    Row { kind: RowKind, index: usize },
}

/// "`kind`\[`index`\]".
pub open spec fn row_name(kind: RowKind, index: usize) -> Seq<char> {
    kind.spec_name() + "["@ + decimal(index as nat) + "]"@
}

fn push_row_name(s: &mut String, kind: RowKind, index: usize)
    ensures
        final(s)@ == old(s)@ + row_name(kind, index),
{
    let ghost before = s@;
    push_text(s, kind.name());
    push_text(s, "[");
    push_decimal(s, index as u64);
    push_text(s, "]");
    assert(s@ =~= before + row_name(kind, index));
}

impl ValidationError {
    pub open spec fn spec_message(self) -> Seq<char> {
        match self {
            ValidationError::Count { kind, got, expected } => kind.spec_name()
                + " count mismatch: HDF5 has "@ + decimal(got as nat) + ", source has "@ + decimal(
                expected as nat,
            ),
            ValidationError::Dimension { got, expected } => "embedding_dim mismatch: HDF5 has "@
                + decimal(got as nat) + ", source has "@ + decimal(expected as nat),
            ValidationError::ChunkId { index, source, got } => row_name(RowKind::Chunk, index)
                + ".id mismatch: source "@ + signed_decimal(source as int) + ", HDF5 "@
                + signed_decimal(got as int),
            ValidationError::ChunkText { index } => row_name(RowKind::Chunk, index)
                + ".text mismatch"@,
            ValidationError::ChunkStrings { index } => row_name(RowKind::Chunk, index)
                + " string field mismatch"@,
            ValidationError::ChunkDeleted { index, source, got } => row_name(RowKind::Chunk, index)
                + ".deleted mismatch: source "@ + signed_decimal(source as int) + ", HDF5 "@
                + signed_decimal(got as int),
            ValidationError::EmbeddingLength { index, source, got } => row_name(
                RowKind::Chunk,
                index,
            ) + " embedding length mismatch: "@ + decimal(source as nat) + " vs "@ + decimal(
                got as nat,
            ),
            ValidationError::EmbeddingValue { index, position } => row_name(RowKind::Chunk, index)
                + ".embedding["@ + decimal(position as nat) + "] mismatch"@,
            ValidationError::Row { kind, index } => row_name(kind, index) + " mismatch"@,
        }
    }

    /// What differs, in words.
    pub fn message(&self) -> (r: String)
        ensures
            r@ == self.spec_message(),
    {
        let mut s: String = "".to_owned();
        proof {
            reveal_strlit("");
        }
        assert(s@ =~= Seq::empty());
        match self {
            ValidationError::Count { kind, got, expected } => {
                push_text(&mut s, kind.name());
                push_text(&mut s, " count mismatch: HDF5 has ");
                push_decimal(&mut s, *got as u64);
                push_text(&mut s, ", source has ");
                push_decimal(&mut s, *expected as u64);
            },
            ValidationError::Dimension { got, expected } => {
                push_text(&mut s, "embedding_dim mismatch: HDF5 has ");
                push_decimal(&mut s, *got as u64);
                push_text(&mut s, ", source has ");
                push_decimal(&mut s, *expected as u64);
            },
            ValidationError::ChunkId { index, source, got } => {
                push_row_name(&mut s, RowKind::Chunk, *index);
                push_text(&mut s, ".id mismatch: source ");
                push_signed_decimal(&mut s, *source);
                push_text(&mut s, ", HDF5 ");
                push_signed_decimal(&mut s, *got);
            },
            ValidationError::ChunkText { index } => {
                push_row_name(&mut s, RowKind::Chunk, *index);
                push_text(&mut s, ".text mismatch");
            },
            ValidationError::ChunkStrings { index } => {
                push_row_name(&mut s, RowKind::Chunk, *index);
                push_text(&mut s, " string field mismatch");
            },
            ValidationError::ChunkDeleted { index, source, got } => {
                push_row_name(&mut s, RowKind::Chunk, *index);
                push_text(&mut s, ".deleted mismatch: source ");
                push_signed_decimal(&mut s, *source as i64);
                push_text(&mut s, ", HDF5 ");
                push_signed_decimal(&mut s, *got as i64);
            },
            ValidationError::EmbeddingLength { index, source, got } => {
                push_row_name(&mut s, RowKind::Chunk, *index);
                push_text(&mut s, " embedding length mismatch: ");
                push_decimal(&mut s, *source as u64);
                push_text(&mut s, " vs ");
                push_decimal(&mut s, *got as u64);
            },
            ValidationError::EmbeddingValue { index, position } => {
                push_row_name(&mut s, RowKind::Chunk, *index);
                push_text(&mut s, ".embedding[");
                push_decimal(&mut s, *position as u64);
                push_text(&mut s, "] mismatch");
            },
            ValidationError::Row { kind, index } => {
                push_row_name(&mut s, *kind, *index);
                push_text(&mut s, " mismatch");
            },
        }
        assert(s@ =~= self.spec_message());
        s
    }
}

/// What a comparison that found no difference went through.
#[derive(Clone, Copy, PartialEq, Eq, Debug, Structural)]
pub struct ValidationSummary {
    pub chunks: u64,
    pub sessions: u64,
    pub entities: u64,
    pub relations: u64,
    pub embedding_dim: u64,
    /// Rows whose content was compared.
    pub rows_checked: u64,
}

// ---------------------------------------------------------------------------
// Sampling
// ---------------------------------------------------------------------------

/// The chunk rows to compare: all of them, or some spread evenly from the
/// first to the last.
pub open spec fn sample(n: nat, full: bool) -> Seq<usize> {
    if full || n <= SAMPLE_ROWS {
        Seq::new(n, |k: int| k as usize)
    } else {
        Seq::new(SAMPLE_ROWS as nat, |k: int| (k * (n - 1) / (SAMPLE_ROWS - 1)) as usize)
    }
}

proof fn lemma_sample_step(n: int, k: int)
    requires
        n > SAMPLE_ROWS,
        0 <= k < SAMPLE_ROWS - 1,
    ensures
        k * (n - 1) / (SAMPLE_ROWS - 1) < (k + 1) * (n - 1) / (SAMPLE_ROWS - 1),
        (k + 1) * (n - 1) / (SAMPLE_ROWS - 1) <= n - 1,
        0 <= k * (n - 1) / (SAMPLE_ROWS - 1),
        0 <= k * (n - 1),
        (k + 1) * (n - 1) == k * (n - 1) + (n - 1),
{
    let m = n - 1;
    assert((k + 1) * m == k * m + m) by (nonlinear_arith);
    assert(0 <= k * m) by (nonlinear_arith)
        requires
            0 <= k,
            0 <= m,
    ;
    assert((k + 1) * m <= 15 * m) by (nonlinear_arith)
        requires
            k + 1 <= 15,
            0 <= m,
    ;
}

/// A sample holds rows of the table, in order and without repeats, and with
/// the first and the last among them.
pub proof fn law_sample_is_spread(n: usize, full: bool)
    requires
        n > 0,
    ensures
        sample(n as nat, full).len() > 0,
        sample(n as nat, full).first() == 0,
        sample(n as nat, full).last() == n - 1,
        forall|i: int, j: int|
            0 <= i < j < sample(n as nat, full).len() ==> #[trigger] sample(n as nat, full)[i]
                < #[trigger] sample(n as nat, full)[j],
        forall|i: int|
            0 <= i < sample(n as nat, full).len() ==> #[trigger] sample(n as nat, full)[i] < n,
{
    let s = sample(n as nat, full);
    if full || n <= SAMPLE_ROWS {
    } else {
        assert(0 * (n - 1) == 0);
        assert((SAMPLE_ROWS - 1) * (n - 1) / (SAMPLE_ROWS - 1) == n - 1);
        assert forall|i: int, j: int| 0 <= i < j < s.len() implies #[trigger] s[i]
            < #[trigger] s[j] by {
            lemma_sample_order(n as int, i, j);
        }
        assert forall|i: int| 0 <= i < s.len() implies #[trigger] s[i] < n by {
            if i < SAMPLE_ROWS - 1 {
                lemma_sample_order(n as int, i, SAMPLE_ROWS - 1);
            }
        }
    }
}

proof fn lemma_sample_order(n: int, i: int, j: int)
    requires
        SAMPLE_ROWS < n <= usize::MAX,
        0 <= i < j < SAMPLE_ROWS,
    ensures
        0 <= i * (n - 1) / (SAMPLE_ROWS - 1) < j * (n - 1) / (SAMPLE_ROWS - 1) < n,
    decreases j - i,
{
    lemma_sample_step(n, j - 1);
    if i < j - 1 {
        lemma_sample_order(n, i, j - 1);
    } else {
        lemma_sample_step(n, i);
    }
}

/// The chunk rows to compare.
pub fn sample_indices(n: usize, full: bool) -> (r: Vec<usize>)
    ensures
        r@ == sample(n as nat, full),
{
    let mut r: Vec<usize> = Vec::new();
    let mut k: usize = 0;
    if full || n <= SAMPLE_ROWS {
        while k < n
            invariant
                k <= n,
                r@ == Seq::new(k as nat, |j: int| j as usize),
            decreases n - k,
        {
            r.push(k);
            k = k + 1;
            assert(r@ =~= Seq::new(k as nat, |j: int| j as usize));
        }
        return r;
    }
    while k < SAMPLE_ROWS
        invariant
            k <= SAMPLE_ROWS < n,
            r@ == Seq::new(k as nat, |j: int| (j * (n - 1) / (SAMPLE_ROWS - 1)) as usize),
        decreases SAMPLE_ROWS - k,
    {
        proof {
            if k > 0 {
                lemma_sample_step(n as int, k - 1);
            } else {
                lemma_sample_step(n as int, 0);
            }
            assert(k * (n - 1) <= 15 * (n - 1)) by (nonlinear_arith)
                requires
                    k <= 15,
                    n >= 1,
            ;
        }
        let product: u128 = k as u128 * (n - 1) as u128;
        let row: u128 = product / 15;
        r.push(row as usize);
        k = k + 1;
        assert(r@ =~= Seq::new(
            k as nat,
            |j: int| (j * (n - 1) / (SAMPLE_ROWS - 1)) as usize,
        ));
    }
    r
}

// ---------------------------------------------------------------------------
// Rows
// ---------------------------------------------------------------------------

/// The first difference between two chunks, where the first value of their
/// embeddings that differs is at `fault`.
pub open spec fn chunk_difference(
    s: MemoryChunk,
    g: MemoryChunk,
    fault: Option<usize>,
    index: usize,
) -> Option<ValidationError> {
    if s.id != g.id {
        Some(ValidationError::ChunkId { index, source: s.id, got: g.id })
    } else if s.chunk@ != g.chunk@ {
        Some(ValidationError::ChunkText { index })
    } else if s.session_id@ != g.session_id@ || s.source_channel@ != g.source_channel@ || s.tags@
        != g.tags@ {
        Some(ValidationError::ChunkStrings { index })
    } else if s.deleted != g.deleted {
        Some(ValidationError::ChunkDeleted { index, source: s.deleted, got: g.deleted })
    } else if s.embedding@.len() != g.embedding@.len() {
        Some(
            ValidationError::EmbeddingLength {
                index,
                source: s.embedding@.len() as usize,
                got: g.embedding@.len() as usize,
            },
        )
    } else {
        match fault {
            Some(position) => Some(ValidationError::EmbeddingValue { index, position }),
            None => None,
        }
    }
}

fn compare_chunks(s: &MemoryChunk, g: &MemoryChunk, fault: Option<usize>, index: usize) -> (r:
    Option<ValidationError>)
    ensures
        r == chunk_difference(*s, *g, fault, index),
{
    if s.id != g.id {
        return Some(ValidationError::ChunkId { index, source: s.id, got: g.id });
    }
    if !same_text(s.chunk.as_str(), g.chunk.as_str()) {
        return Some(ValidationError::ChunkText { index });
    }
    if !same_text(s.session_id.as_str(), g.session_id.as_str()) || !same_text(
        s.source_channel.as_str(),
        g.source_channel.as_str(),
    ) || !same_text(s.tags.as_str(), g.tags.as_str()) {
        return Some(ValidationError::ChunkStrings { index });
    }
    if s.deleted != g.deleted {
        return Some(ValidationError::ChunkDeleted { index, source: s.deleted, got: g.deleted });
    }
    if s.embedding.len() != g.embedding.len() {
        return Some(
            ValidationError::EmbeddingLength {
                index,
                source: s.embedding.len(),
                got: g.embedding.len(),
            },
        );
    }
    match fault {
        Some(position) => Some(ValidationError::EmbeddingValue { index, position }),
        None => None,
    }
}

/// Whether two sessions agree in every field.
pub open spec fn sessions_agree(s: Session, g: Session) -> bool {
    &&& s.id@ == g.id@
    &&& s.start_idx == g.start_idx
    &&& s.end_idx == g.end_idx
    &&& s.channel@ == g.channel@
    &&& s.summary@ == g.summary@
    &&& s.timestamp == g.timestamp
}

/// Whether two entities agree in every field.
pub open spec fn entities_agree(s: Entity, g: Entity) -> bool {
    &&& s.id == g.id
    &&& s.name@ == g.name@
    &&& s.entity_type@ == g.entity_type@
    &&& s.embedding_idx == g.embedding_idx
}

/// Whether two relations agree in every field.
pub open spec fn relations_agree(s: Relation, g: Relation) -> bool {
    &&& s.src == g.src
    &&& s.tgt == g.tgt
    &&& s.relation@ == g.relation@
    &&& s.weight == g.weight
    &&& s.timestamp == g.timestamp
}

/// Where the first difference of embedding `i` is, if one was found.
pub open spec fn fault_at(faults: Seq<Option<usize>>, i: int) -> Option<usize> {
    if i < faults.len() {
        faults[i]
    } else {
        None
    }
}

/// The first difference among the chunks of `rows` from the `k`th on.
pub open spec fn chunks_difference(
    source: Seq<MemoryChunk>,
    got: Seq<MemoryChunk>,
    faults: Seq<Option<usize>>,
    rows: Seq<usize>,
    k: int,
) -> Option<ValidationError>
    decreases rows.len() - k,
{
    if k < 0 || k >= rows.len() {
        None
    } else {
        let i = rows[k];
        let d = chunk_difference(source[i as int], got[i as int], fault_at(faults, i as int), i);
        if d is Some {
            d
        } else {
            chunks_difference(source, got, faults, rows, k + 1)
        }
    }
}

/// The first session from the `i`th on that differs.
pub open spec fn sessions_difference(source: Seq<Session>, got: Seq<Session>, i: int) -> Option<
    ValidationError,
>
    decreases source.len() - i,
{
    if i < 0 || i >= source.len() {
        None
    } else if !sessions_agree(source[i], got[i]) {
        Some(ValidationError::Row { kind: RowKind::Session, index: i as usize })
    } else {
        sessions_difference(source, got, i + 1)
    }
}

/// The first entity from the `i`th on that differs.
pub open spec fn entities_difference(source: Seq<Entity>, got: Seq<Entity>, i: int) -> Option<
    ValidationError,
>
    decreases source.len() - i,
{
    if i < 0 || i >= source.len() {
        None
    } else if !entities_agree(source[i], got[i]) {
        Some(ValidationError::Row { kind: RowKind::Entity, index: i as usize })
    } else {
        entities_difference(source, got, i + 1)
    }
}

/// The first relation from the `i`th on that differs.
pub open spec fn relations_difference(source: Seq<Relation>, got: Seq<Relation>, i: int) -> Option<
    ValidationError,
>
    decreases source.len() - i,
{
    if i < 0 || i >= source.len() {
        None
    } else if !relations_agree(source[i], got[i]) {
        Some(ValidationError::Row { kind: RowKind::Relation, index: i as usize })
    } else {
        relations_difference(source, got, i + 1)
    }
}

/// The first difference of the sizes.
pub open spec fn counts_difference(got: SqliteData, source: SqliteData) -> Option<
    ValidationError,
> {
    if got.chunks@.len() != source.chunks@.len() {
        Some(
            ValidationError::Count {
                kind: RowKind::Chunk,
                got: got.chunks@.len() as usize,
                expected: source.chunks@.len() as usize,
            },
        )
    } else if got.sessions@.len() != source.sessions@.len() {
        Some(
            ValidationError::Count {
                kind: RowKind::Session,
                got: got.sessions@.len() as usize,
                expected: source.sessions@.len() as usize,
            },
        )
    } else if got.entities@.len() != source.entities@.len() {
        Some(
            ValidationError::Count {
                kind: RowKind::Entity,
                got: got.entities@.len() as usize,
                expected: source.entities@.len() as usize,
            },
        )
    } else if got.relations@.len() != source.relations@.len() {
        Some(
            ValidationError::Count {
                kind: RowKind::Relation,
                got: got.relations@.len() as usize,
                expected: source.relations@.len() as usize,
            },
        )
    } else if got.embedding_dim != source.embedding_dim {
        Some(
            ValidationError::Dimension { got: got.embedding_dim, expected: source.embedding_dim },
        )
    } else {
        None
    }
}

/// The first of two differences.
pub open spec fn first_of(a: Option<ValidationError>, b: Option<ValidationError>) -> Option<
    ValidationError,
> {
    if a is Some {
        a
    } else {
        b
    }
}

/// The first difference: sizes, then chunks, sessions, entities, relations.
pub open spec fn difference(
    got: SqliteData,
    source: SqliteData,
    full: bool,
    faults: Seq<Option<usize>>,
) -> Option<ValidationError> {
    first_of(
        counts_difference(got, source),
        first_of(
            chunks_difference(
                source.chunks@,
                got.chunks@,
                faults,
                sample(source.chunks@.len(), full),
                0,
            ),
            first_of(
                sessions_difference(source.sessions@, got.sessions@, 0),
                first_of(
                    entities_difference(source.entities@, got.entities@, 0),
                    relations_difference(source.relations@, got.relations@, 0),
                ),
            ),
        ),
    )
}

/// The rows that a comparison goes through.
pub open spec fn rows_to_check(source: SqliteData, full: bool) -> nat {
    sample(source.chunks@.len(), full).len() + source.sessions@.len() + source.entities@.len()
        + source.relations@.len()
}

fn compare_counts(got: &SqliteData, source: &SqliteData) -> (r: Option<ValidationError>)
    ensures
        r == counts_difference(*got, *source),
{
    if got.chunks.len() != source.chunks.len() {
        return Some(
            ValidationError::Count {
                kind: RowKind::Chunk,
                got: got.chunks.len(),
                expected: source.chunks.len(),
            },
        );
    }
    if got.sessions.len() != source.sessions.len() {
        return Some(
            ValidationError::Count {
                kind: RowKind::Session,
                got: got.sessions.len(),
                expected: source.sessions.len(),
            },
        );
    }
    if got.entities.len() != source.entities.len() {
        return Some(
            ValidationError::Count {
                kind: RowKind::Entity,
                got: got.entities.len(),
                expected: source.entities.len(),
            },
        );
    }
    if got.relations.len() != source.relations.len() {
        return Some(
            ValidationError::Count {
                kind: RowKind::Relation,
                got: got.relations.len(),
                expected: source.relations.len(),
            },
        );
    }
    if got.embedding_dim != source.embedding_dim {
        return Some(
            ValidationError::Dimension { got: got.embedding_dim, expected: source.embedding_dim },
        );
    }
    None
}

fn compare_all_chunks(
    source: &[MemoryChunk],
    got: &[MemoryChunk],
    faults: &[Option<usize>],
    rows: &[usize],
) -> (r: Option<ValidationError>)
    requires
        source@.len() == got@.len(),
        forall|k: int| 0 <= k < rows@.len() ==> #[trigger] rows@[k] < source@.len(),
    ensures
        r == chunks_difference(source@, got@, faults@, rows@, 0),
{
    let mut k: usize = 0;
    while k < rows.len()
        invariant
            k <= rows@.len(),
            source@.len() == got@.len(),
            forall|j: int| 0 <= j < rows@.len() ==> #[trigger] rows@[j] < source@.len(),
            chunks_difference(source@, got@, faults@, rows@, 0) == chunks_difference(
                source@,
                got@,
                faults@,
                rows@,
                k as int,
            ),
        decreases rows@.len() - k,
    {
        let i: usize = rows[k];
        let fault: Option<usize> = if i < faults.len() {
            faults[i]
        } else {
            None
        };
        let d: Option<ValidationError> = compare_chunks(&source[i], &got[i], fault, i);
        if d.is_some() {
            return d;
        }
        k = k + 1;
    }
    None
}

fn compare_sessions(source: &[Session], got: &[Session]) -> (r: Option<ValidationError>)
    requires
        source@.len() == got@.len(),
    ensures
        r == sessions_difference(source@, got@, 0),
{
    let mut i: usize = 0;
    while i < source.len()
        invariant
            i <= source@.len() == got@.len(),
            sessions_difference(source@, got@, 0) == sessions_difference(
                source@,
                got@,
                i as int,
            ),
        decreases source@.len() - i,
    {
        let s: &Session = &source[i];
        let g: &Session = &got[i];
        if !same_text(s.id.as_str(), g.id.as_str()) || s.start_idx != g.start_idx || s.end_idx
            != g.end_idx || !same_text(s.channel.as_str(), g.channel.as_str()) || !same_text(
            s.summary.as_str(),
            g.summary.as_str(),
        ) || s.timestamp != g.timestamp {
            return Some(ValidationError::Row { kind: RowKind::Session, index: i });
        }
        i = i + 1;
    }
    None
}

fn compare_entities(source: &[Entity], got: &[Entity]) -> (r: Option<ValidationError>)
    requires
        source@.len() == got@.len(),
    ensures
        r == entities_difference(source@, got@, 0),
{
    let mut i: usize = 0;
    while i < source.len()
        invariant
            i <= source@.len() == got@.len(),
            entities_difference(source@, got@, 0) == entities_difference(
                source@,
                got@,
                i as int,
            ),
        decreases source@.len() - i,
    {
        let s: &Entity = &source[i];
        let g: &Entity = &got[i];
        if s.id != g.id || !same_text(s.name.as_str(), g.name.as_str()) || !same_text(
            s.entity_type.as_str(),
            g.entity_type.as_str(),
        ) || s.embedding_idx != g.embedding_idx {
            return Some(ValidationError::Row { kind: RowKind::Entity, index: i });
        }
        i = i + 1;
    }
    None
}

fn compare_relations(source: &[Relation], got: &[Relation]) -> (r: Option<ValidationError>)
    requires
        source@.len() == got@.len(),
    ensures
        r == relations_difference(source@, got@, 0),
{
    let mut i: usize = 0;
    while i < source.len()
        invariant
            i <= source@.len() == got@.len(),
            relations_difference(source@, got@, 0) == relations_difference(
                source@,
                got@,
                i as int,
            ),
        decreases source@.len() - i,
    {
        let s: &Relation = &source[i];
        let g: &Relation = &got[i];
        if s.src != g.src || s.tgt != g.tgt || !same_text(
            s.relation.as_str(),
            g.relation.as_str(),
        ) || s.weight != g.weight || s.timestamp != g.timestamp {
            return Some(ValidationError::Row { kind: RowKind::Relation, index: i });
        }
        i = i + 1;
    }
    None
}

/// Compares what was read back with what was to be written.
///
/// Numbers of embeddings are compared by the caller, within a tolerance:
/// `faults` holds for each chunk the place of the first one that is off.
pub fn validate_hdf5(
    got: &SqliteData,
    source: &SqliteData,
    full: bool,
    faults: &[Option<usize>],
) -> (r: Result<ValidationSummary, ValidationError>)
    requires
        rows_to_check(*source, full) <= u64::MAX,
    ensures
        match difference(*got, *source, full, faults@) {
            Some(e) => r == Err::<ValidationSummary, ValidationError>(e),
            None => r == Ok::<ValidationSummary, ValidationError>(
                ValidationSummary {
                    chunks: source.chunks@.len() as u64,
                    sessions: source.sessions@.len() as u64,
                    entities: source.entities@.len() as u64,
                    relations: source.relations@.len() as u64,
                    embedding_dim: source.embedding_dim as u64,
                    rows_checked: rows_to_check(*source, full) as u64,
                },
            ),
        },
        r is Ok ==> {
            &&& got.chunks@.len() == source.chunks@.len()
            &&& got.sessions@.len() == source.sessions@.len()
            &&& got.entities@.len() == source.entities@.len()
            &&& got.relations@.len() == source.relations@.len()
            &&& got.embedding_dim == source.embedding_dim
            &&& forall|i: int|
                0 <= i < source.sessions@.len() ==> {
                    &&& (#[trigger] source.sessions@[i]).id@ == got.sessions@[i].id@
                    &&& source.sessions@[i].start_idx == got.sessions@[i].start_idx
                    &&& source.sessions@[i].end_idx == got.sessions@[i].end_idx
                    &&& source.sessions@[i].channel@ == got.sessions@[i].channel@
                    &&& source.sessions@[i].timestamp == got.sessions@[i].timestamp
                    &&& source.sessions@[i].summary@ == got.sessions@[i].summary@
                }
            &&& forall|i: int|
                0 <= i < source.entities@.len() ==> {
                    &&& (#[trigger] source.entities@[i]).id == got.entities@[i].id
                    &&& source.entities@[i].name@ == got.entities@[i].name@
                    &&& source.entities@[i].entity_type@ == got.entities@[i].entity_type@
                    &&& source.entities@[i].embedding_idx == got.entities@[i].embedding_idx
                }
            &&& forall|i: int|
                0 <= i < source.relations@.len() ==> {
                    &&& (#[trigger] source.relations@[i]).src == got.relations@[i].src
                    &&& source.relations@[i].tgt == got.relations@[i].tgt
                    &&& source.relations@[i].relation@ == got.relations@[i].relation@
                    &&& source.relations@[i].weight == got.relations@[i].weight
                    &&& source.relations@[i].timestamp == got.relations@[i].timestamp
                }
            &&& forall|i: int|
                0 <= i < source.chunks@.len() && full ==> {
                    &&& (#[trigger] source.chunks@[i]).id == got.chunks@[i].id
                    &&& source.chunks@[i].chunk@ == got.chunks@[i].chunk@
                    &&& source.chunks@[i].source_channel@ == got.chunks@[i].source_channel@
                    &&& source.chunks@[i].session_id@ == got.chunks@[i].session_id@
                    &&& source.chunks@[i].tags@ == got.chunks@[i].tags@
                    &&& source.chunks@[i].deleted == got.chunks@[i].deleted
                    &&& source.chunks@[i].embedding@.len() == got.chunks@[i].embedding@.len()
                    &&& i < faults@.len() ==> faults@[i] is None
                }
        },
{
    match compare_counts(got, source) {
        Some(e) => {
            return Err(e);
        },
        None => {},
    }
    let rows: Vec<usize> = sample_indices(source.chunks.len(), full);
    proof {
        if source.chunks@.len() > 0 {
            law_sample_is_spread(source.chunks@.len() as usize, full);
        }
    }
    match compare_all_chunks(
        source.chunks.as_slice(),
        got.chunks.as_slice(),
        faults,
        rows.as_slice(),
    ) {
        Some(e) => {
            return Err(e);
        },
        None => {},
    }
    match compare_sessions(source.sessions.as_slice(), got.sessions.as_slice()) {
        Some(e) => {
            return Err(e);
        },
        None => {},
    }
    match compare_entities(source.entities.as_slice(), got.entities.as_slice()) {
        Some(e) => {
            return Err(e);
        },
        None => {},
    }
    match compare_relations(source.relations.as_slice(), got.relations.as_slice()) {
        Some(e) => {
            return Err(e);
        },
        None => {},
    }
    proof {
        assert(source.chunks.len() == source.chunks@.len());
        law_accepted_data_is_the_source(*got, *source, full, faults@);
    }
    let rows_checked: u64 = rows.len() as u64 + source.sessions.len() as u64
        + source.entities.len() as u64 + source.relations.len() as u64;
    Ok(
        ValidationSummary {
            chunks: got.chunks.len() as u64,
            sessions: got.sessions.len() as u64,
            entities: got.entities.len() as u64,
            relations: got.relations.len() as u64,
            embedding_dim: got.embedding_dim as u64,
            rows_checked,
        },
    )
}

// ---------------------------------------------------------------------------
// Laws
// ---------------------------------------------------------------------------

/// Whether two chunks agree in everything but time, and their embeddings in
/// length.
pub open spec fn chunks_agree(s: MemoryChunk, g: MemoryChunk) -> bool {
    &&& s.id == g.id
    &&& s.chunk@ == g.chunk@
    &&& s.session_id@ == g.session_id@
    &&& s.source_channel@ == g.source_channel@
    &&& s.tags@ == g.tags@
    &&& s.deleted == g.deleted
    &&& s.embedding@.len() == g.embedding@.len()
}

proof fn lemma_chunks_agree(
    source: Seq<MemoryChunk>,
    got: Seq<MemoryChunk>,
    faults: Seq<Option<usize>>,
    rows: Seq<usize>,
    k: int,
)
    requires
        0 <= k <= rows.len(),
    ensures
        chunks_difference(source, got, faults, rows, k) is None <==> (forall|j: int|
            k <= j < rows.len() ==> chunks_agree(
                source[(#[trigger] rows[j]) as int],
                got[rows[j] as int],
            ) && fault_at(faults, rows[j] as int) is None),
    decreases rows.len() - k,
{
    if k < rows.len() {
        lemma_chunks_agree(source, got, faults, rows, k + 1);
        assert(rows[k] == rows[k]);
    }
}

proof fn lemma_sessions_agree(source: Seq<Session>, got: Seq<Session>, i: int)
    requires
        0 <= i <= source.len(),
    ensures
        sessions_difference(source, got, i) is None <==> (forall|j: int|
            i <= j < source.len() ==> sessions_agree(#[trigger] source[j], got[j])),
    decreases source.len() - i,
{
    if i < source.len() {
        lemma_sessions_agree(source, got, i + 1);
        assert(source[i] == source[i]);
    }
}

proof fn lemma_entities_agree(source: Seq<Entity>, got: Seq<Entity>, i: int)
    requires
        0 <= i <= source.len(),
    ensures
        entities_difference(source, got, i) is None <==> (forall|j: int|
            i <= j < source.len() ==> entities_agree(#[trigger] source[j], got[j])),
    decreases source.len() - i,
{
    if i < source.len() {
        lemma_entities_agree(source, got, i + 1);
        assert(source[i] == source[i]);
    }
}

proof fn lemma_relations_agree(source: Seq<Relation>, got: Seq<Relation>, i: int)
    requires
        0 <= i <= source.len(),
    ensures
        relations_difference(source, got, i) is None <==> (forall|j: int|
            i <= j < source.len() ==> relations_agree(#[trigger] source[j], got[j])),
    decreases source.len() - i,
{
    if i < source.len() {
        lemma_relations_agree(source, got, i + 1);
        assert(source[i] == source[i]);
    }
}

/// A full comparison passes exactly when the sizes are the same and every row
/// agrees, embeddings within the caller's tolerance.
pub proof fn law_full_comparison_is_exact(
    got: SqliteData,
    source: SqliteData,
    faults: Seq<Option<usize>>,
)
    requires
        source.chunks@.len() <= usize::MAX,
    ensures
        difference(got, source, true, faults) is None <==> {
            &&& counts_difference(got, source) is None
            &&& forall|i: int|
                0 <= i < source.chunks@.len() ==> chunks_agree(
                    #[trigger] source.chunks@[i],
                    got.chunks@[i],
                ) && fault_at(faults, i) is None
            &&& forall|i: int|
                0 <= i < source.sessions@.len() ==> sessions_agree(
                    #[trigger] source.sessions@[i],
                    got.sessions@[i],
                )
            &&& forall|i: int|
                0 <= i < source.entities@.len() ==> entities_agree(
                    #[trigger] source.entities@[i],
                    got.entities@[i],
                )
            &&& forall|i: int|
                0 <= i < source.relations@.len() ==> relations_agree(
                    #[trigger] source.relations@[i],
                    got.relations@[i],
                )
        },
{
    let rows = sample(source.chunks@.len(), true);
    lemma_chunks_agree(source.chunks@, got.chunks@, faults, rows, 0);
    lemma_sessions_agree(source.sessions@, got.sessions@, 0);
    lemma_entities_agree(source.entities@, got.entities@, 0);
    lemma_relations_agree(source.relations@, got.relations@, 0);
    if chunks_difference(source.chunks@, got.chunks@, faults, rows, 0) is None {
        assert forall|i: int| 0 <= i < source.chunks@.len() implies chunks_agree(
            #[trigger] source.chunks@[i],
            got.chunks@[i],
        ) && fault_at(faults, i) is None by {
            assert(rows[i] == i);
        }
    }
}

/// What passes has the sizes of the source, and each of its sessions, entities and
/// relations has, field by field, what the source has. Of the chunks the same holds,
/// but for their time and for what is within the caller's tolerance: of all of them
/// where all are compared, and otherwise at least of the first and the last.
pub proof fn law_accepted_data_is_the_source(
    got: SqliteData,
    source: SqliteData,
    full: bool,
    faults: Seq<Option<usize>>,
)
    requires
        source.chunks@.len() <= usize::MAX,
        difference(got, source, full, faults) is None,
    ensures
        ({
            &&& got.chunks@.len() == source.chunks@.len()
            &&& got.sessions@.len() == source.sessions@.len()
            &&& got.entities@.len() == source.entities@.len()
            &&& got.relations@.len() == source.relations@.len()
            &&& got.embedding_dim == source.embedding_dim
            &&& forall|i: int|
                0 <= i < source.sessions@.len() ==> {
                    &&& (#[trigger] source.sessions@[i]).id@ == got.sessions@[i].id@
                    &&& source.sessions@[i].start_idx == got.sessions@[i].start_idx
                    &&& source.sessions@[i].end_idx == got.sessions@[i].end_idx
                    &&& source.sessions@[i].channel@ == got.sessions@[i].channel@
                    &&& source.sessions@[i].timestamp == got.sessions@[i].timestamp
                    &&& source.sessions@[i].summary@ == got.sessions@[i].summary@
                }
            &&& forall|i: int|
                0 <= i < source.entities@.len() ==> {
                    &&& (#[trigger] source.entities@[i]).id == got.entities@[i].id
                    &&& source.entities@[i].name@ == got.entities@[i].name@
                    &&& source.entities@[i].entity_type@ == got.entities@[i].entity_type@
                    &&& source.entities@[i].embedding_idx == got.entities@[i].embedding_idx
                }
            &&& forall|i: int|
                0 <= i < source.relations@.len() ==> {
                    &&& (#[trigger] source.relations@[i]).src == got.relations@[i].src
                    &&& source.relations@[i].tgt == got.relations@[i].tgt
                    &&& source.relations@[i].relation@ == got.relations@[i].relation@
                    &&& source.relations@[i].weight == got.relations@[i].weight
                    &&& source.relations@[i].timestamp == got.relations@[i].timestamp
                }
            &&& forall|i: int|
                0 <= i < source.chunks@.len() && (full || source.chunks@.len() <= 16 || i == 0 || i
                    == source.chunks@.len() - 1) ==> {
                    &&& (#[trigger] source.chunks@[i]).id == got.chunks@[i].id
                    &&& source.chunks@[i].chunk@ == got.chunks@[i].chunk@
                    &&& source.chunks@[i].source_channel@ == got.chunks@[i].source_channel@
                    &&& source.chunks@[i].session_id@ == got.chunks@[i].session_id@
                    &&& source.chunks@[i].tags@ == got.chunks@[i].tags@
                    &&& source.chunks@[i].deleted == got.chunks@[i].deleted
                    &&& source.chunks@[i].embedding@.len() == got.chunks@[i].embedding@.len()
                    &&& i < faults.len() ==> faults[i] is None
                }
        }),
{
    let rows = sample(source.chunks@.len(), full);
    lemma_chunks_agree(source.chunks@, got.chunks@, faults, rows, 0);
    lemma_sessions_agree(source.sessions@, got.sessions@, 0);
    lemma_entities_agree(source.entities@, got.entities@, 0);
    lemma_relations_agree(source.relations@, got.relations@, 0);
    assert forall|i: int|
        0 <= i < source.chunks@.len() && (full || source.chunks@.len() <= 16 || i == 0 || i
            == source.chunks@.len() - 1) implies chunks_agree(
        #[trigger] source.chunks@[i],
        got.chunks@[i],
    ) && fault_at(faults, i) is None by {
        if full || source.chunks@.len() <= 16 {
            assert(rows[i] == i);
        } else {
            law_sample_is_spread(source.chunks@.len() as usize, full);
            if i == 0 {
                assert(rows[0] == 0);
            } else {
                assert(rows[rows.len() - 1] == i);
            }
        }
    }
}

/// What agrees with the source in every field passes, and nothing is reported of it.
pub proof fn law_the_source_is_accepted(
    got: SqliteData,
    source: SqliteData,
    full: bool,
    faults: Seq<Option<usize>>,
)
    requires
        source.chunks@.len() <= usize::MAX,
        ({
            &&& got.chunks@.len() == source.chunks@.len()
            &&& got.sessions@.len() == source.sessions@.len()
            &&& got.entities@.len() == source.entities@.len()
            &&& got.relations@.len() == source.relations@.len()
            &&& got.embedding_dim == source.embedding_dim
            &&& forall|i: int|
                0 <= i < source.sessions@.len() ==> {
                    &&& (#[trigger] source.sessions@[i]).id@ == got.sessions@[i].id@
                    &&& source.sessions@[i].start_idx == got.sessions@[i].start_idx
                    &&& source.sessions@[i].end_idx == got.sessions@[i].end_idx
                    &&& source.sessions@[i].channel@ == got.sessions@[i].channel@
                    &&& source.sessions@[i].timestamp == got.sessions@[i].timestamp
                    &&& source.sessions@[i].summary@ == got.sessions@[i].summary@
                }
            &&& forall|i: int|
                0 <= i < source.entities@.len() ==> {
                    &&& (#[trigger] source.entities@[i]).id == got.entities@[i].id
                    &&& source.entities@[i].name@ == got.entities@[i].name@
                    &&& source.entities@[i].entity_type@ == got.entities@[i].entity_type@
                    &&& source.entities@[i].embedding_idx == got.entities@[i].embedding_idx
                }
            &&& forall|i: int|
                0 <= i < source.relations@.len() ==> {
                    &&& (#[trigger] source.relations@[i]).src == got.relations@[i].src
                    &&& source.relations@[i].tgt == got.relations@[i].tgt
                    &&& source.relations@[i].relation@ == got.relations@[i].relation@
                    &&& source.relations@[i].weight == got.relations@[i].weight
                    &&& source.relations@[i].timestamp == got.relations@[i].timestamp
                }
            &&& forall|i: int|
                0 <= i < source.chunks@.len() ==> {
                    &&& (#[trigger] source.chunks@[i]).id == got.chunks@[i].id
                    &&& source.chunks@[i].chunk@ == got.chunks@[i].chunk@
                    &&& source.chunks@[i].source_channel@ == got.chunks@[i].source_channel@
                    &&& source.chunks@[i].session_id@ == got.chunks@[i].session_id@
                    &&& source.chunks@[i].tags@ == got.chunks@[i].tags@
                    &&& source.chunks@[i].deleted == got.chunks@[i].deleted
                    &&& source.chunks@[i].embedding@.len() == got.chunks@[i].embedding@.len()
                    &&& i < faults.len() ==> faults[i] is None
                }
        }),
    ensures
        difference(got, source, full, faults) is None,
{
    assert forall|i: int| 0 <= i < source.chunks@.len() implies chunks_agree(
        #[trigger] source.chunks@[i],
        got.chunks@[i],
    ) && fault_at(faults, i) is None by {
        assert(source.chunks@[i].id == got.chunks@[i].id);
        assert(source.chunks@[i].embedding@.len() == got.chunks@[i].embedding@.len());
        if i < faults.len() {
            assert(faults[i] is None);
        }
    }
    assert forall|i: int| 0 <= i < source.sessions@.len() implies sessions_agree(
        #[trigger] source.sessions@[i],
        got.sessions@[i],
    ) by {}
    assert forall|i: int| 0 <= i < source.entities@.len() implies entities_agree(
        #[trigger] source.entities@[i],
        got.entities@[i],
    ) by {}
    assert forall|i: int| 0 <= i < source.relations@.len() implies relations_agree(
        #[trigger] source.relations@[i],
        got.relations@[i],
    ) by {}
    assert(counts_difference(got, source) is None);
    law_full_comparison_is_exact(got, source, faults);
    if !full {
        law_sampling_is_weaker(got, source, faults);
    }
}

/// What passes a full comparison passes a sampled one.
pub proof fn law_sampling_is_weaker(
    got: SqliteData,
    source: SqliteData,
    faults: Seq<Option<usize>>,
)
    requires
        source.chunks@.len() <= usize::MAX,
        difference(got, source, true, faults) is None,
    ensures
        difference(got, source, false, faults) is None,
{
    law_full_comparison_is_exact(got, source, faults);
    let rows = sample(source.chunks@.len(), false);
    if source.chunks@.len() > 0 {
        law_sample_is_spread(source.chunks@.len() as usize, false);
    }
    lemma_chunks_agree(source.chunks@, got.chunks@, faults, rows, 0);
    assert forall|j: int| 0 <= j < rows.len() implies chunks_agree(
        source.chunks@[(#[trigger] rows[j]) as int],
        got.chunks@[rows[j] as int],
    ) && fault_at(faults, rows[j] as int) is None by {
        let s = source.chunks@[rows[j] as int];
        assert(rows[j] < source.chunks@.len());
    }
    lemma_sessions_agree(source.sessions@, got.sessions@, 0);
    lemma_entities_agree(source.entities@, got.entities@, 0);
    lemma_relations_agree(source.relations@, got.relations@, 0);
}

/// Data compared with itself passes, where no embedding is off.
pub proof fn law_data_agrees_with_itself(data: SqliteData, full: bool)
    requires
        data.chunks@.len() <= usize::MAX,
    ensures
        difference(data, data, full, Seq::empty()) is None,
{
    law_full_comparison_is_exact(data, data, Seq::empty());
    if !full {
        law_sampling_is_weaker(data, data, Seq::empty());
    }
}

/// As many rows are checked as there are, but for chunks: without a full check, 16
/// of them where there are more.
pub proof fn law_rows_to_check_are_counted(source: SqliteData, full: bool)
    ensures
        rows_to_check(source, full) == source.sessions@.len() + source.entities@.len()
            + source.relations@.len() + if full || source.chunks@.len() <= 16 {
            source.chunks@.len()
        } else {
            16
        },
{
}

/// Whether `e` tells a difference between two chunks.
spec fn tells_chunk(e: ValidationError, s: MemoryChunk, g: MemoryChunk, fault: Option<usize>) -> bool {
    match e {
        ValidationError::ChunkId { source, got, .. } => source == s.id && got == g.id && s.id
            != g.id,
        ValidationError::ChunkText { .. } => s.chunk@ != g.chunk@,
        ValidationError::ChunkStrings { .. } => s.session_id@ != g.session_id@ || s.source_channel@
            != g.source_channel@ || s.tags@ != g.tags@,
        ValidationError::ChunkDeleted { source, got, .. } => source == s.deleted && got
            == g.deleted && s.deleted != g.deleted,
        ValidationError::EmbeddingLength { .. } => s.embedding@.len() != g.embedding@.len(),
        ValidationError::EmbeddingValue { position, .. } => fault == Some(position),
        _ => false,
    }
}

proof fn lemma_told_chunk(
    source: Seq<MemoryChunk>,
    got: Seq<MemoryChunk>,
    faults: Seq<Option<usize>>,
    full: bool,
    k: int,
) -> (i: int)
    requires
        source.len() <= usize::MAX,
        0 <= k,
        chunks_difference(source, got, faults, sample(source.len(), full), k) is Some,
    ensures
        0 <= i < source.len(),
        tells_chunk(
            chunks_difference(source, got, faults, sample(source.len(), full), k)->0,
            source[i],
            got[i],
            fault_at(faults, i),
        ),
        named_chunk(chunks_difference(source, got, faults, sample(source.len(), full), k)->0) == i,
    decreases sample(source.len(), full).len() - k,
{
    let rows = sample(source.len(), full);
    let i = rows[k] as int;
    law_sample_is_spread(source.len() as usize, full);
    let d = chunk_difference(source[i], got[i], fault_at(faults, i), rows[k]);
    if d is Some {
        i
    } else {
        lemma_told_chunk(source, got, faults, full, k + 1)
    }
}

/// The chunk that a difference names.
pub open spec fn named_chunk(e: ValidationError) -> int {
    match e {
        ValidationError::ChunkId { index, .. } => index as int,
        ValidationError::ChunkText { index } => index as int,
        ValidationError::ChunkStrings { index } => index as int,
        ValidationError::ChunkDeleted { index, .. } => index as int,
        ValidationError::EmbeddingLength { index, .. } => index as int,
        ValidationError::EmbeddingValue { index, .. } => index as int,
        _ => -1,
    }
}

proof fn lemma_told_session(source: Seq<Session>, got: Seq<Session>, i: int) -> (r: int)
    requires
        0 <= i,
        source.len() <= usize::MAX,
        sessions_difference(source, got, i) is Some,
    ensures
        i <= r < source.len(),
        sessions_difference(source, got, i) == Some(
            ValidationError::Row { kind: RowKind::Session, index: r as usize },
        ),
        !sessions_agree(source[r], got[r]),
        forall|j: int| i <= j < r ==> sessions_agree(#[trigger] source[j], got[j]),
    decreases source.len() - i,
{
    if !sessions_agree(source[i], got[i]) {
        i
    } else {
        lemma_told_session(source, got, i + 1)
    }
}

proof fn lemma_told_entity(source: Seq<Entity>, got: Seq<Entity>, i: int) -> (r: int)
    requires
        0 <= i,
        source.len() <= usize::MAX,
        entities_difference(source, got, i) is Some,
    ensures
        i <= r < source.len(),
        entities_difference(source, got, i) == Some(
            ValidationError::Row { kind: RowKind::Entity, index: r as usize },
        ),
        !entities_agree(source[r], got[r]),
        forall|j: int| i <= j < r ==> entities_agree(#[trigger] source[j], got[j]),
    decreases source.len() - i,
{
    if !entities_agree(source[i], got[i]) {
        i
    } else {
        lemma_told_entity(source, got, i + 1)
    }
}

proof fn lemma_told_relation(source: Seq<Relation>, got: Seq<Relation>, i: int) -> (r: int)
    requires
        0 <= i,
        source.len() <= usize::MAX,
        relations_difference(source, got, i) is Some,
    ensures
        i <= r < source.len(),
        relations_difference(source, got, i) == Some(
            ValidationError::Row { kind: RowKind::Relation, index: r as usize },
        ),
        !relations_agree(source[r], got[r]),
        forall|j: int| i <= j < r ==> relations_agree(#[trigger] source[j], got[j]),
    decreases source.len() - i,
{
    if !relations_agree(source[i], got[i]) {
        i
    } else {
        lemma_told_relation(source, got, i + 1)
    }
}

/// A difference that is told is there: where it names numbers, they are the ones
/// that differ; where it names a row, that row has a field that differs.
pub proof fn law_told_difference_is_real(
    got: SqliteData,
    source: SqliteData,
    full: bool,
    faults: Seq<Option<usize>>,
)
    requires
        difference(got, source, full, faults) is Some,
        got.chunks@.len() <= usize::MAX,
        got.sessions@.len() <= usize::MAX,
        got.entities@.len() <= usize::MAX,
        got.relations@.len() <= usize::MAX,
        source.chunks@.len() <= usize::MAX,
        source.sessions@.len() <= usize::MAX,
        source.entities@.len() <= usize::MAX,
        source.relations@.len() <= usize::MAX,
    ensures
        match difference(got, source, full, faults)->0 {
            ValidationError::Count { kind: RowKind::Chunk, got: g, expected: x } => g
                == got.chunks@.len() && x == source.chunks@.len() && g != x,
            ValidationError::Count { kind: RowKind::Session, got: g, expected: x } => g
                == got.sessions@.len() && x == source.sessions@.len() && g != x,
            ValidationError::Count { kind: RowKind::Entity, got: g, expected: x } => g
                == got.entities@.len() && x == source.entities@.len() && g != x,
            ValidationError::Count { kind: RowKind::Relation, got: g, expected: x } => g
                == got.relations@.len() && x == source.relations@.len() && g != x,
            ValidationError::Dimension { got: g, expected: x } => g == got.embedding_dim && x
                == source.embedding_dim && g != x,
            ValidationError::ChunkId { index, source: s, got: g } => index < source.chunks@.len()
                && s == source.chunks@[index as int].id && g == got.chunks@[index as int].id && s
                != g,
            ValidationError::ChunkText { index } => index < source.chunks@.len()
                && source.chunks@[index as int].chunk@ != got.chunks@[index as int].chunk@,
            ValidationError::ChunkStrings { index } => index < source.chunks@.len() && (
            source.chunks@[index as int].session_id@ != got.chunks@[index as int].session_id@
                || source.chunks@[index as int].source_channel@
                != got.chunks@[index as int].source_channel@ || source.chunks@[index as int].tags@
                != got.chunks@[index as int].tags@),
            ValidationError::ChunkDeleted { index, source: s, got: g } => index
                < source.chunks@.len() && s == source.chunks@[index as int].deleted && g
                == got.chunks@[index as int].deleted && s != g,
            ValidationError::EmbeddingLength { index, .. } => index < source.chunks@.len()
                && source.chunks@[index as int].embedding@.len()
                != got.chunks@[index as int].embedding@.len(),
            ValidationError::EmbeddingValue { index, position } => index < source.chunks@.len()
                && index < faults.len() && faults[index as int] == Some(position),
            ValidationError::Row { kind: RowKind::Session, index } => index
                < source.sessions@.len() && {
                let s = source.sessions@[index as int];
                let g = got.sessions@[index as int];
                s.id@ != g.id@ || s.start_idx != g.start_idx || s.end_idx != g.end_idx || s.channel@
                    != g.channel@ || s.timestamp != g.timestamp || s.summary@ != g.summary@
            },
            ValidationError::Row { kind: RowKind::Entity, index } => index
                < source.entities@.len() && {
                let s = source.entities@[index as int];
                let g = got.entities@[index as int];
                s.id != g.id || s.name@ != g.name@ || s.entity_type@ != g.entity_type@
                    || s.embedding_idx != g.embedding_idx
            },
            ValidationError::Row { kind: RowKind::Relation, index } => index
                < source.relations@.len() && {
                let s = source.relations@[index as int];
                let g = got.relations@[index as int];
                s.src != g.src || s.tgt != g.tgt || s.relation@ != g.relation@ || s.weight
                    != g.weight || s.timestamp != g.timestamp
            },
            ValidationError::Row { kind: RowKind::Chunk, .. } => false,
        },
{
    if counts_difference(got, source) is None {
        let rows = sample(source.chunks@.len(), full);
        if chunks_difference(source.chunks@, got.chunks@, faults, rows, 0) is Some {
            let i = lemma_told_chunk(source.chunks@, got.chunks@, faults, full, 0);
        } else if sessions_difference(source.sessions@, got.sessions@, 0) is Some {
            let i = lemma_told_session(source.sessions@, got.sessions@, 0);
        } else if entities_difference(source.entities@, got.entities@, 0) is Some {
            let i = lemma_told_entity(source.entities@, got.entities@, 0);
        } else {
            let i = lemma_told_relation(source.relations@, got.relations@, 0);
        }
    }
}

/// Whether `text` begins with the name of a kind of row and its index in brackets.
pub open spec fn names_row(text: Seq<char>, kind: Seq<char>, index: usize) -> bool {
    let n = kind.len() as int;
    &&& text.len() > n + 1
    &&& text.take(n) == kind
    &&& text[n] == '['
    &&& tells_number(text, n + 1, index as nat)
}

proof fn lemma_row_begins(kind: RowKind, index: usize, text: Seq<char>)
    requires
        row_name(kind, index).len() <= text.len(),
        text.take(row_name(kind, index).len() as int) == row_name(kind, index),
    ensures
        names_row(text, kind.spec_name(), index),
{
    reveal_strlit("[");
    reveal_strlit("]");
    let name = row_name(kind, index);
    let n = kind.spec_name().len() as int;
    let d = decimal(index as nat);
    assert(name.take(n) =~= kind.spec_name());
    assert(name.subrange(n + 1, n + 1 + d.len()) =~= d);
    assert(text.take(n) =~= text.take(name.len() as int).take(n));
    assert(text[n] == text.take(name.len() as int)[n]);
    assert(text.subrange(n + 1, n + 1 + d.len()) =~= text.take(name.len() as int).subrange(
        n + 1,
        n + 1 + d.len(),
    ));
}

/// What is told of a row begins with its kind and its index; what is told of counts,
/// of dimensions and of the length of an embedding has the numbers that differ.
pub proof fn law_difference_text_names_row(e: ValidationError)
    ensures
        ({
            let text = e.spec_message();
            let len = text.len() as int;
            match e {
                ValidationError::Count { kind, got, expected } => tells_number(
                    text,
                    kind.spec_name().len() as int + 26,
                    got as nat,
                ) && tells_number(text, len - decimal(expected as nat).len(), expected as nat),
                ValidationError::Dimension { got, expected } => tells_number(text, 33, got as nat)
                    && tells_number(text, len - decimal(expected as nat).len(), expected as nat),
                ValidationError::ChunkId { index, .. } => names_row(text, "chunk"@, index),
                ValidationError::ChunkText { index } => names_row(text, "chunk"@, index),
                ValidationError::ChunkStrings { index } => names_row(text, "chunk"@, index),
                ValidationError::ChunkDeleted { index, .. } => names_row(text, "chunk"@, index),
                ValidationError::EmbeddingLength { index, got, .. } => names_row(
                    text,
                    "chunk"@,
                    index,
                ) && tells_number(text, len - decimal(got as nat).len(), got as nat),
                ValidationError::EmbeddingValue { index, .. } => names_row(text, "chunk"@, index),
                ValidationError::Row { kind: RowKind::Chunk, index } => names_row(
                    text,
                    "chunk"@,
                    index,
                ),
                ValidationError::Row { kind: RowKind::Session, index } => names_row(
                    text,
                    "session"@,
                    index,
                ),
                ValidationError::Row { kind: RowKind::Entity, index } => names_row(
                    text,
                    "entity"@,
                    index,
                ),
                ValidationError::Row { kind: RowKind::Relation, index } => names_row(
                    text,
                    "relation"@,
                    index,
                ),
            }
        }),
{
    let text = e.spec_message();
    let len = text.len() as int;
    match e {
        ValidationError::Count { kind, got, expected } => {
            reveal_strlit(" count mismatch: HDF5 has ");
            let n = kind.spec_name().len() as int + 26;
            let d = decimal(got as nat);
            let m = decimal(expected as nat);
            assert(text.subrange(n, n + d.len()) =~= d);
            assert(text.subrange(len - m.len(), len) =~= m);
        },
        ValidationError::Dimension { got, expected } => {
            reveal_strlit("embedding_dim mismatch: HDF5 has ");
            let d = decimal(got as nat);
            let m = decimal(expected as nat);
            assert(text.subrange(33, 33 + d.len() as int) =~= d);
            assert(text.subrange(len - m.len(), len) =~= m);
        },
        ValidationError::ChunkId { index, .. } => {
            assert(text.take(row_name(RowKind::Chunk, index).len() as int) =~= row_name(
                RowKind::Chunk,
                index,
            ));
            lemma_row_begins(RowKind::Chunk, index, text);
        },
        ValidationError::ChunkText { index } => {
            assert(text.take(row_name(RowKind::Chunk, index).len() as int) =~= row_name(
                RowKind::Chunk,
                index,
            ));
            lemma_row_begins(RowKind::Chunk, index, text);
        },
        ValidationError::ChunkStrings { index } => {
            assert(text.take(row_name(RowKind::Chunk, index).len() as int) =~= row_name(
                RowKind::Chunk,
                index,
            ));
            lemma_row_begins(RowKind::Chunk, index, text);
        },
        ValidationError::ChunkDeleted { index, .. } => {
            assert(text.take(row_name(RowKind::Chunk, index).len() as int) =~= row_name(
                RowKind::Chunk,
                index,
            ));
            lemma_row_begins(RowKind::Chunk, index, text);
        },
        ValidationError::EmbeddingLength { index, got, .. } => {
            assert(text.take(row_name(RowKind::Chunk, index).len() as int) =~= row_name(
                RowKind::Chunk,
                index,
            ));
            lemma_row_begins(RowKind::Chunk, index, text);
            let m = decimal(got as nat);
            assert(text.subrange(len - m.len(), len) =~= m);
        },
        ValidationError::EmbeddingValue { index, .. } => {
            assert(text.take(row_name(RowKind::Chunk, index).len() as int) =~= row_name(
                RowKind::Chunk,
                index,
            ));
            lemma_row_begins(RowKind::Chunk, index, text);
        },
        ValidationError::Row { kind, index } => {
            assert(text.take(row_name(kind, index).len() as int) =~= row_name(kind, index));
            lemma_row_begins(kind, index, text);
        },
    }
}

} // verus!
