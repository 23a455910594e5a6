//! Row changes in delta segments: which versions they replace and add, and
//! which row of the segment they bring.
use super::error::ColumnarError;
use super::overlay::{self, DeltaDescriptor, DeltaMutation, ProjectedDeltaMutation};
use super::project::{self, RowBatch, RowBatchView};
use super::reader::{self, Parsed, Reader};
use super::version::{self, SnapshotKind};
use crate::bytes;
use crate::change_stream::types::StorageVersionKey;
use crate::ids::{StorageDataVersion, StorageId};
use crate::value::ScalarView;
use std::collections::HashSet;
use vstd::prelude::*;

verus! {

broadcast use {crate::bytes::group_le_len, vstd::std_specs::hash::group_hash_axioms};

/// How many of the first `n` row changes bring a row.
pub open spec fn brought<V>(mutations: Seq<DeltaMutation<V>>, n: int) -> int
    decreases n,
{
    if n <= 0 {
        0
    } else {
        brought(mutations, n - 1) + if mutations[n - 1].after is Some {
            1int
        } else {
            0
        }
    }
}

/// No more rows are brought than there are row changes.
pub proof fn lemma_brought<V>(mutations: Seq<DeltaMutation<V>>, n: int)
    requires
        0 <= n,
    ensures
        0 <= brought(mutations, n) <= n,
    decreases n,
{
    if n > 0 {
        lemma_brought(mutations, n - 1);
    }
}

// ---------------------------------------------------------------------------
// Writing
// ---------------------------------------------------------------------------
/// How a row change is written that brings row `index`.
pub open spec fn descriptor_le<V>(mutation: DeltaMutation<V>, index: u64) -> Seq<u8> {
    match (mutation.old_version, mutation.new_version) {
        (None, Some(new)) => seq![1u8] + version::key_le(new) + bytes::u64_le(index),
        (Some(old), Some(new)) => seq![2u8] + version::key_le(old) + version::key_le(new)
            + bytes::u64_le(index),
        (Some(old), None) => seq![3u8] + version::key_le(old),
        (None, None) => Seq::empty(),
    }
}

/// Why a version cannot be written for a storage, if it cannot.
pub open spec fn own_key_error(key: StorageVersionKey, storage_id: StorageId) -> Option<
    ColumnarError,
> {
    version::key_error(key, storage_id, version::kind_of(key))
}

/// Why a row change cannot be written, if it cannot.
pub open spec fn descriptor_error<V>(mutation: DeltaMutation<V>, storage_id: StorageId) -> Option<
    ColumnarError,
> {
    match (mutation.old_version, mutation.new_version, mutation.after) {
        (None, Some(new), Some(_)) => own_key_error(new, storage_id),
        (Some(old), Some(new), Some(_)) => if own_key_error(old, storage_id) is Some {
            own_key_error(old, storage_id)
        } else {
            own_key_error(new, storage_id)
        },
        (Some(old), None, None) => own_key_error(old, storage_id),
        _ => Some(ColumnarError::InvalidInput("invalid projected mutation")),
    }
}

/// How `n` row changes from `from` on are written.
pub open spec fn run_le<V>(mutations: Seq<DeltaMutation<V>>, from: int, n: int) -> Seq<u8>
    decreases n,
{
    if n <= 0 {
        Seq::empty()
    } else {
        run_le(mutations, from, n - 1) + descriptor_le(
            mutations[from + n - 1],
            brought(mutations, from + n - 1) as u64,
        )
    }
}

/// Why `n` row changes from `from` on cannot be written, if they cannot.
pub open spec fn run_error<V>(
    mutations: Seq<DeltaMutation<V>>,
    storage_id: StorageId,
    from: int,
    n: int,
) -> Option<ColumnarError>
    decreases n,
{
    if n <= 0 {
        None
    } else if run_error(mutations, storage_id, from, n - 1) is Some {
        run_error(mutations, storage_id, from, n - 1)
    } else if from + n > mutations.len() {
        Some(ColumnarError::InvalidInput("delta mutation count mismatch"))
    } else {
        descriptor_error(mutations[from + n - 1], storage_id)
    }
}

/// How many changes the first `n` batches have.
pub open spec fn changes_in(batches: Seq<RowBatchView>, n: int) -> int
    decreases n,
{
    if n <= 0 {
        0
    } else {
        changes_in(batches, n - 1) + batches[n - 1].mutations.len()
    }
}

/// A projection of batches has a row change for each of their changes.
pub proof fn lemma_projected_len(
    batches: Seq<RowBatchView>,
    positions: Seq<int>,
    known: super::metadata::MetadataView,
    n: int,
)
    requires
        0 <= n <= batches.len(),
    ensures
        project::projected_batches(batches, positions, known, n) matches Ok((mutations, _))
            ==> mutations.len() == changes_in(batches, n),
    decreases n,
{
    if n > 0 {
        lemma_projected_len(batches, positions, known, n - 1);
        lemma_projected_changes_len(
            batches[n - 1].mutations,
            positions,
            known,
            batches[n - 1].mutations.len() as int,
        );
    }
}

proof fn lemma_projected_changes_len(
    changes: Seq<crate::change_stream::types::StorageChange<Seq<ScalarView>>>,
    positions: Seq<int>,
    known: super::metadata::MetadataView,
    n: int,
)
    requires
        0 <= n,
    ensures
        project::projected_changes(changes, positions, known, n) matches Ok(mutations)
            ==> mutations.len() == n,
    decreases n,
{
    if n > 0 {
        lemma_projected_changes_len(changes, positions, known, n - 1);
    }
}

/// How one batch of row changes from `from` on is written.
pub open spec fn batch_le<V>(
    batch: RowBatchView,
    mutations: Seq<DeltaMutation<V>>,
    from: int,
) -> Seq<u8> {
    bytes::u64_le(batch.before.0) + bytes::u64_le(batch.after.0) + bytes::u32_le(
        batch.mutations.len() as u32,
    ) + run_le(mutations, from, batch.mutations.len() as int)
}

/// How the row changes of the first `n` batches are written.
pub open spec fn batches_le<V>(
    batches: Seq<RowBatchView>,
    mutations: Seq<DeltaMutation<V>>,
    n: int,
) -> Seq<u8>
    decreases n,
{
    if n <= 0 {
        Seq::empty()
    } else {
        batches_le(batches, mutations, n - 1) + batch_le(
            batches[n - 1],
            mutations,
            changes_in(batches, n - 1),
        )
    }
}

/// Why the row changes of the first `n` batches cannot be written, if they
/// cannot.
pub open spec fn batches_error<V>(
    batches: Seq<RowBatchView>,
    mutations: Seq<DeltaMutation<V>>,
    storage_id: StorageId,
    n: int,
) -> Option<ColumnarError>
    decreases n,
{
    if n <= 0 {
        None
    } else if batches_error(batches, mutations, storage_id, n - 1) is Some {
        batches_error(batches, mutations, storage_id, n - 1)
    } else {
        run_error(
            mutations,
            storage_id,
            changes_in(batches, n - 1),
            batches[n - 1].mutations.len() as int,
        )
    }
}

/// Why the row changes of batches cannot be written, if they cannot.
pub open spec fn descriptors_error<V>(
    batches: Seq<RowBatchView>,
    mutations: Seq<DeltaMutation<V>>,
    storage_id: StorageId,
) -> Option<ColumnarError> {
    if batches_error(batches, mutations, storage_id, batches.len() as int) is Some {
        batches_error(batches, mutations, storage_id, batches.len() as int)
    } else if changes_in(batches, batches.len() as int) != mutations.len() {
        Some(ColumnarError::InvalidInput("delta mutation count mismatch"))
    } else {
        None
    }
}

proof fn lemma_run_error_prefix<V>(
    mutations: Seq<DeltaMutation<V>>,
    storage_id: StorageId,
    from: int,
    n: int,
    m: int,
)
    requires
        n <= m,
        run_error(mutations, storage_id, from, n) is Some,
    ensures
        run_error(mutations, storage_id, from, m) == run_error(mutations, storage_id, from, n),
    decreases m - n,
{
    if n < m {
        lemma_run_error_prefix(mutations, storage_id, from, n, m - 1);
    }
}

proof fn lemma_batches_error_prefix<V>(
    batches: Seq<RowBatchView>,
    mutations: Seq<DeltaMutation<V>>,
    storage_id: StorageId,
    n: int,
    m: int,
)
    requires
        n <= m,
        batches_error(batches, mutations, storage_id, n) is Some,
    ensures
        batches_error(batches, mutations, storage_id, m) == batches_error(
            batches,
            mutations,
            storage_id,
            n,
        ),
    decreases m - n,
{
    if n < m {
        lemma_batches_error_prefix(batches, mutations, storage_id, n, m - 1);
    }
}

fn encode_descriptor(
    output: &mut Vec<u8>,
    mutation: &ProjectedDeltaMutation,
    index: u64,
    storage_id: StorageId,
) -> (written: Result<(), ColumnarError>)
    ensures
        match descriptor_error(overlay::mutation_view(*mutation), storage_id) {
            Some(error) => written == Err::<(), ColumnarError>(error),
            None => written is Ok && final(output)@ == old(output)@ + descriptor_le(
                overlay::mutation_view(*mutation),
                index,
            ),
        },
{
    let ghost start = output@;
    match (mutation.old_version, mutation.new_version, mutation.after.is_some()) {
        (None, Some(new), true) => {
            output.push(1);
            version::encode_version_key(output, new, storage_id)?;
            bytes::push_u64(output, index);
        },
        (Some(old), Some(new), true) => {
            output.push(2);
            version::encode_version_key(output, old, storage_id)?;
            version::encode_version_key(output, new, storage_id)?;
            bytes::push_u64(output, index);
        },
        (Some(old), None, false) => {
            output.push(3);
            version::encode_version_key(output, old, storage_id)?;
        },
        _ => {
            return Err(ColumnarError::InvalidInput("invalid projected mutation"));
        },
    }
    assert(output@ =~= start + descriptor_le(overlay::mutation_view(*mutation), index));
    Ok(())
}

fn encode_run(
    output: &mut Vec<u8>,
    mutations: &[ProjectedDeltaMutation],
    storage_id: StorageId,
    from: usize,
    count: usize,
    index: u64,
) -> (written: Result<u64, ColumnarError>)
    requires
        from <= mutations@.len(),
        index == brought(overlay::mutations_view(mutations@), from as int),
    ensures
        match run_error(
            overlay::mutations_view(mutations@),
            storage_id,
            from as int,
            count as int,
        ) {
            Some(error) => written == Err::<u64, ColumnarError>(error),
            None => {
                &&& written is Ok
                &&& from + count <= mutations@.len()
                &&& written->Ok_0 == brought(overlay::mutations_view(mutations@), from + count)
                &&& final(output)@ == old(output)@ + run_le(
                    overlay::mutations_view(mutations@),
                    from as int,
                    count as int,
                )
            },
        },
{
    let ghost start = output@;
    let ghost known = overlay::mutations_view(mutations@);
    let mut next: u64 = index;
    let mut i: usize = 0;
    assert(output@ =~= start + run_le(known, from as int, 0));
    while i < count
        invariant
            i <= count,
            from + i <= mutations@.len(),
            mutations@.len() == mutations.len(),
            known == overlay::mutations_view(mutations@),
            run_error(known, storage_id, from as int, i as int) is None,
            next == brought(known, from + i),
            output@ == start + run_le(known, from as int, i as int),
            start == old(output)@,
        decreases count - i,
    {
        proof {
            lemma_brought(known, from + i);
            if run_error(known, storage_id, from as int, i + 1) is Some {
                lemma_run_error_prefix(known, storage_id, from as int, i + 1, count as int);
            }
        }
        if i == mutations.len() - from {
            return Err(ColumnarError::InvalidInput("delta mutation count mismatch"));
        }
        let ghost before = run_le(known, from as int, i as int);
        let mutation: &ProjectedDeltaMutation = &mutations[from + i];
        assert(known[from + i] == overlay::mutation_view(*mutation));
        encode_descriptor(output, mutation, next, storage_id)?;
        if mutation.after.is_some() {
            next = next + 1;
        }
        i = i + 1;
        assert(output@ =~= start + (before + descriptor_le(
            known[from + i - 1],
            brought(known, from + i - 1) as u64,
        )));
    }
    Ok(next)
}

/// Writes the row changes of batches.
pub fn encode_delta_descriptors(
    output: &mut Vec<u8>,
    storage_id: StorageId,
    batches: &[RowBatch],
    mutations: &[ProjectedDeltaMutation],
) -> (written: Result<(), ColumnarError>)
    ensures
        match descriptors_error(
            project::batches_view(batches@),
            overlay::mutations_view(mutations@),
            storage_id,
        ) {
            Some(error) => written == Err::<(), ColumnarError>(error),
            None => written is Ok && final(output)@ == old(output)@ + batches_le(
                project::batches_view(batches@),
                overlay::mutations_view(mutations@),
                batches@.len() as int,
            ),
        },
{
    let ghost start = output@;
    let ghost frames = project::batches_view(batches@);
    let ghost known = overlay::mutations_view(mutations@);
    let total: usize = mutations.len();
    let mut position: usize = 0;
    let mut index: u64 = 0;
    let mut i: usize = 0;
    assert(output@ =~= start + batches_le(frames, known, 0));
    while i < batches.len()
        invariant
            i <= batches@.len(),
            position <= total,
            total == mutations@.len(),
            frames == project::batches_view(batches@),
            known == overlay::mutations_view(mutations@),
            start == old(output)@,
            position == changes_in(frames, i as int),
            index == brought(known, position as int),
            batches_error(frames, known, storage_id, i as int) is None,
            output@ == start + batches_le(frames, known, i as int),
        decreases batches@.len() - i,
    {
        proof {
            if batches_error(frames, known, storage_id, i + 1) is Some {
                lemma_batches_error_prefix(frames, known, storage_id, i + 1, frames.len() as int);
            }
        }
        let ghost before = batches_le(frames, known, i as int);
        let batch: &RowBatch = &batches[i];
        assert(frames[i as int] == batch@);
        bytes::push_u64(output, batch.before.0);
        bytes::push_u64(output, batch.after.0);
        bytes::push_u32(output, #[verifier::truncate] (batch.mutations.len() as u32));
        index = encode_run(output, mutations, storage_id, position, batch.mutations.len(), index)?;
        let ghost from = position as int;
        position = position + batch.mutations.len();
        i = i + 1;
        assert(output@ =~= start + (before + batch_le(frames[i - 1], known, from)));
    }
    if position != total {
        return Err(ColumnarError::InvalidInput("delta mutation count mismatch"));
    }
    Ok(())
}

// ---------------------------------------------------------------------------
// Reading
// ---------------------------------------------------------------------------
/// What row changes are read for: a storage, and the format and the number of
/// rows of the segment.
#[derive(Debug, Clone, Copy)]
pub struct DescriptorContext {
    pub storage_id: StorageId,
    pub kind: SnapshotKind,
    pub lazy: bool,
    pub after_count: u64,
}

/// The error of an unknown row change.
pub open spec fn unknown_tag(lazy: bool) -> ColumnarError {
    if lazy {
        ColumnarError::Corrupt("unknown lazy delta mutation tag")
    } else {
        ColumnarError::Corrupt("unknown delta mutation tag")
    }
}

/// The error of a batch that does not continue.
pub open spec fn broken_frontier(lazy: bool) -> ColumnarError {
    if lazy {
        ColumnarError::Corrupt("broken lazy delta batch frontier")
    } else {
        ColumnarError::Corrupt("broken delta batch frontier")
    }
}

/// The row version at `at`.
pub open spec fn own_key_read(s: Seq<u8>, at: int, context: DescriptorContext) -> Parsed<
    StorageVersionKey,
> {
    version::key_read(s, at, context.storage_id, context.kind)
}

/// A row change that adds a row, behind its tag.
pub open spec fn insert_read(s: Seq<u8>, at: int, context: DescriptorContext) -> Parsed<
    DeltaDescriptor,
> {
    match own_key_read(s, at, context) {
        Err(error) => Err(error),
        Ok((new, at)) => match reader::u64_read(s, at) {
            Err(error) => Err(error),
            Ok((row, at)) => Ok(
                (
                    DeltaMutation { old_version: None, new_version: Some(new), after: Some(row) },
                    at,
                ),
            ),
        },
    }
}

/// A row change that replaces a row, behind its tag.
pub open spec fn update_read(s: Seq<u8>, at: int, context: DescriptorContext) -> Parsed<
    DeltaDescriptor,
> {
    match own_key_read(s, at, context) {
        Err(error) => Err(error),
        Ok((old, at)) => match own_key_read(s, at, context) {
            Err(error) => Err(error),
            Ok((new, at)) => if old == new {
                Err(ColumnarError::Corrupt("update preserves version identity"))
            } else {
                match reader::u64_read(s, at) {
                    Err(error) => Err(error),
                    Ok((row, at)) => Ok(
                        (
                            DeltaMutation {
                                old_version: Some(old),
                                new_version: Some(new),
                                after: Some(row),
                            },
                            at,
                        ),
                    ),
                }
            },
        },
    }
}

/// One row change at `at`.
pub open spec fn descriptor_read(s: Seq<u8>, at: int, context: DescriptorContext) -> Parsed<
    DeltaDescriptor,
> {
    match reader::u8_read(s, at) {
        Err(error) => Err(error),
        Ok((tag, at)) => if tag == 1 {
            insert_read(s, at, context)
        } else if tag == 2 {
            update_read(s, at, context)
        } else if tag == 3 {
            match own_key_read(s, at, context) {
                Err(error) => Err(error),
                Ok((old, at)) => Ok(
                    (DeltaMutation { old_version: Some(old), new_version: None, after: None }, at),
                ),
            }
        } else {
            Err(unknown_tag(context.lazy))
        },
    }
}

/// Whether one of the row changes brings a row.
pub open spec fn row_used(descriptors: Seq<DeltaDescriptor>, row: u64) -> bool {
    exists|i: int| 0 <= i < descriptors.len() && (#[trigger] descriptors[i]).after == Some(row)
}

/// Whether a row change brings a row that there is and that no other brought.
pub open spec fn row_free(
    descriptors: Seq<DeltaDescriptor>,
    descriptor: DeltaDescriptor,
    after_count: u64,
) -> bool {
    match descriptor.after {
        Some(row) => row < after_count && !row_used(descriptors, row),
        None => true,
    }
}

/// `n` row changes at `at`, behind others.
pub open spec fn run_read(
    s: Seq<u8>,
    at: int,
    context: DescriptorContext,
    prior: Seq<DeltaDescriptor>,
    n: int,
) -> Parsed<Seq<DeltaDescriptor>>
    decreases n,
{
    if n <= 0 {
        Ok((prior, at))
    } else {
        match run_read(s, at, context, prior, n - 1) {
            Err(error) => Err(error),
            Ok((list, at)) => match descriptor_read(s, at, context) {
                Err(error) => Err(error),
                Ok((descriptor, at)) => if context.lazy && !row_free(
                    list,
                    descriptor,
                    context.after_count,
                ) {
                    Err(ColumnarError::Corrupt("invalid lazy delta after-row reference"))
                } else {
                    Ok((list.push(descriptor), at))
                },
            },
        }
    }
}

/// The bounds and the number of changes of a batch that continues a frontier.
pub open spec fn frame_read(
    s: Seq<u8>,
    at: int,
    context: DescriptorContext,
    frontier: StorageDataVersion,
) -> Parsed<(StorageDataVersion, u32)> {
    match reader::u64_read(s, at) {
        Err(error) => Err(error),
        Ok((before, at)) => match reader::u64_read(s, at) {
            Err(error) => Err(error),
            Ok((after, at)) => match reader::u32_read(s, at) {
                Err(error) => Err(error),
                Ok((count, at)) => if StorageDataVersion(before) != frontier || after <= before {
                    Err(broken_frontier(context.lazy))
                } else {
                    Ok(((StorageDataVersion(after), count), at))
                },
            },
        },
    }
}

/// The row changes of `n` batches at `at`, and where they end.
pub open spec fn frames_read(
    s: Seq<u8>,
    at: int,
    context: DescriptorContext,
    before: StorageDataVersion,
    n: int,
) -> Parsed<(Seq<DeltaDescriptor>, StorageDataVersion)>
    decreases n,
{
    if n <= 0 {
        Ok(((Seq::empty(), before), at))
    } else {
        match frames_read(s, at, context, before, n - 1) {
            Err(error) => Err(error),
            Ok(((list, frontier), at)) => match frame_read(s, at, context, frontier) {
                Err(error) => Err(error),
                Ok(((after, count), at)) => match run_read(s, at, context, list, count as int) {
                    Err(error) => Err(error),
                    Ok((list, at)) => Ok(((list, after), at)),
                },
            },
        }
    }
}

/// Reads one row change.
fn decode_descriptor(reader: &mut Reader<'_>, context: &DescriptorContext) -> (read: Result<
    DeltaDescriptor,
    ColumnarError,
>)
    requires
        old(reader).wf(),
    ensures
        final(reader).wf(),
        final(reader).bytes == old(reader).bytes,
        reader::reads(
            read,
            final(reader).offset as int,
            descriptor_read(old(reader).bytes@, old(reader).offset as int, *context),
        ),
{
    let tag: u8 = reader.u8()?;
    if tag == 1 {
        let new = version::decode_version_key(reader, context.storage_id, context.kind)?;
        let row: u64 = reader.u64()?;
        Ok(DeltaMutation { old_version: None, new_version: Some(new), after: Some(row) })
    } else if tag == 2 {
        let old = version::decode_version_key(reader, context.storage_id, context.kind)?;
        let new = version::decode_version_key(reader, context.storage_id, context.kind)?;
        if old == new {
            return Err(ColumnarError::Corrupt("update preserves version identity"));
        }
        let row: u64 = reader.u64()?;
        Ok(DeltaMutation { old_version: Some(old), new_version: Some(new), after: Some(row) })
    } else if tag == 3 {
        let old = version::decode_version_key(reader, context.storage_id, context.kind)?;
        Ok(DeltaMutation { old_version: Some(old), new_version: None, after: None })
    } else if context.lazy {
        Err(ColumnarError::Corrupt("unknown lazy delta mutation tag"))
    } else {
        Err(ColumnarError::Corrupt("unknown delta mutation tag"))
    }
}

/// Whether a set holds the rows that row changes bring.
pub open spec fn rows_in(used: Set<u64>, descriptors: Seq<DeltaDescriptor>) -> bool {
    forall|row: u64| #[trigger] used.contains(row) <==> row_used(descriptors, row)
}

/// Adding a row change adds the row that it brings.
pub proof fn lemma_rows_in(
    used: Set<u64>,
    descriptors: Seq<DeltaDescriptor>,
    descriptor: DeltaDescriptor,
)
    requires
        rows_in(used, descriptors),
    ensures
        rows_in(
            match descriptor.after {
                Some(row) => used.insert(row),
                None => used,
            },
            descriptors.push(descriptor),
        ),
{
    let grown = match descriptor.after {
        Some(row) => used.insert(row),
        None => used,
    };
    let list = descriptors.push(descriptor);
    assert forall|row: u64| #[trigger] grown.contains(row) <==> row_used(list, row) by {
        if row_used(descriptors, row) {
            let i = choose|i: int|
                0 <= i < descriptors.len() && (#[trigger] descriptors[i]).after == Some(row);
            assert(list[i].after == Some(row));
        }
        if descriptor.after == Some(row) {
            assert(list[descriptors.len() as int].after == Some(row));
        }
        if row_used(list, row) {
            let i = choose|i: int| 0 <= i < list.len() && (#[trigger] list[i]).after == Some(row);
            if i < descriptors.len() {
                assert(descriptors[i].after == Some(row));
            }
        }
        assert(used.contains(row) <==> row_used(descriptors, row));
    }
}

proof fn lemma_run_read_prefix(
    s: Seq<u8>,
    at: int,
    context: DescriptorContext,
    prior: Seq<DeltaDescriptor>,
    n: int,
    m: int,
)
    requires
        n <= m,
        run_read(s, at, context, prior, n) is Err,
    ensures
        run_read(s, at, context, prior, m) == run_read(s, at, context, prior, n),
    decreases m - n,
{
    if n < m {
        lemma_run_read_prefix(s, at, context, prior, n, m - 1);
    }
}

fn decode_run(
    reader: &mut Reader<'_>,
    context: &DescriptorContext,
    list: &mut Vec<DeltaDescriptor>,
    used: &mut HashSet<u64>,
    count: u32,
) -> (read: Result<(), ColumnarError>)
    requires
        old(reader).wf(),
        rows_in(old(used)@, old(list)@),
    ensures
        final(reader).wf(),
        final(reader).bytes == old(reader).bytes,
        match run_read(
            old(reader).bytes@,
            old(reader).offset as int,
            *context,
            old(list)@,
            count as int,
        ) {
            Ok((all, next)) => {
                &&& read is Ok
                &&& final(list)@ == all
                &&& rows_in(final(used)@, final(list)@)
                &&& final(reader).offset == next
            },
            Err(error) => read == Err::<(), ColumnarError>(error),
        },
{
    let ghost s = reader.bytes@;
    let ghost at = reader.offset as int;
    let ghost prior = list@;
    let mut i: u32 = 0;
    while i < count
        invariant
            i <= count,
            reader.wf(),
            reader.bytes == old(reader).bytes,
            s == old(reader).bytes@,
            at == old(reader).offset,
            prior == old(list)@,
            rows_in(used@, list@),
            run_read(s, at, *context, prior, i as int) == Ok::<
                (Seq<DeltaDescriptor>, int),
                ColumnarError,
            >((list@, reader.offset as int)),
        decreases count - i,
    {
        proof {
            if run_read(s, at, *context, prior, i + 1) is Err {
                lemma_run_read_prefix(s, at, *context, prior, i + 1, count as int);
            }
        }
        let descriptor: DeltaDescriptor = decode_descriptor(reader, context)?;
        if let Some(row) = descriptor.after {
            assert(used@.contains(row) <==> row_used(list@, row));
            if context.lazy && (row >= context.after_count || used.contains(&row)) {
                return Err(ColumnarError::Corrupt("invalid lazy delta after-row reference"));
            }
        }
        proof {
            lemma_rows_in(used@, list@, descriptor);
        }
        if let Some(row) = descriptor.after {
            used.insert(row);
        }
        list.push(descriptor);
        i = i + 1;
    }
    Ok(())
}

proof fn lemma_frames_read_prefix(
    s: Seq<u8>,
    at: int,
    context: DescriptorContext,
    before: StorageDataVersion,
    n: int,
    m: int,
)
    requires
        n <= m,
        frames_read(s, at, context, before, n) is Err,
    ensures
        frames_read(s, at, context, before, m) == frames_read(s, at, context, before, n),
    decreases m - n,
{
    if n < m {
        lemma_frames_read_prefix(s, at, context, before, n, m - 1);
    }
}

/// Reads the row changes of batches, and gives where they end.
pub fn decode_frames(
    reader: &mut Reader<'_>,
    context: &DescriptorContext,
    before: StorageDataVersion,
    count: u32,
) -> (read: Result<(Vec<DeltaDescriptor>, StorageDataVersion), ColumnarError>)
    requires
        old(reader).wf(),
    ensures
        final(reader).wf(),
        final(reader).bytes == old(reader).bytes,
        match frames_read(
            old(reader).bytes@,
            old(reader).offset as int,
            *context,
            before,
            count as int,
        ) {
            Ok(((list, frontier), next)) => {
                &&& read is Ok
                &&& read->Ok_0.0@ == list
                &&& read->Ok_0.1 == frontier
                &&& final(reader).offset == next
            },
            Err(error) => read == Err::<
                (Vec<DeltaDescriptor>, StorageDataVersion),
                ColumnarError,
            >(error),
        },
{
    let ghost s = reader.bytes@;
    let ghost at = reader.offset as int;
    let mut list: Vec<DeltaDescriptor> = Vec::new();
    let mut used: HashSet<u64> = HashSet::new();
    let mut frontier: StorageDataVersion = before;
    assert(rows_in(used@, list@));
    let mut i: u32 = 0;
    while i < count
        invariant
            i <= count,
            reader.wf(),
            reader.bytes == old(reader).bytes,
            s == old(reader).bytes@,
            at == old(reader).offset,
            rows_in(used@, list@),
            frames_read(s, at, *context, before, i as int) == Ok::<
                ((Seq<DeltaDescriptor>, StorageDataVersion), int),
                ColumnarError,
            >(((list@, frontier), reader.offset as int)),
        decreases count - i,
    {
        proof {
            if frames_read(s, at, *context, before, i + 1) is Err {
                lemma_frames_read_prefix(s, at, *context, before, i + 1, count as int);
            }
        }
        let batch_before: u64 = reader.u64()?;
        let batch_after: u64 = reader.u64()?;
        let changes: u32 = reader.u32()?;
        if StorageDataVersion(batch_before) != frontier || batch_after <= batch_before {
            if context.lazy {
                return Err(ColumnarError::Corrupt("broken lazy delta batch frontier"));
            }
            return Err(ColumnarError::Corrupt("broken delta batch frontier"));
        }
        frontier = StorageDataVersion(batch_after);
        decode_run(reader, context, &mut list, &mut used, changes)?;
        i = i + 1;
    }
    Ok((list, frontier))
}

/// How many of the row changes bring a row.
pub fn count_brought<V>(mutations: &[DeltaMutation<V>]) -> (count: u64)
    ensures
        count == brought(mutations@, mutations@.len() as int),
        count <= mutations@.len(),
{
    let mut count: u64 = 0;
    let mut i: usize = 0;
    while i < mutations.len()
        invariant
            i <= mutations@.len(),
            count <= i,
            count == brought(mutations@, i as int),
        decreases mutations@.len() - i,
    {
        if mutations[i].after.is_some() {
            count = count + 1;
        }
        i = i + 1;
    }
    count
}

} // verus!
