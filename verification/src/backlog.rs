//! Mutations and truncates with their source positions, and how a backlog is
//! split into atomic batches.

use vstd::prelude::*;

use crate::data::{at_most_machine, capped_sum};
use crate::error::{detailed_error, ErrorKind, ErrorView, EtlError};
use crate::mutation::{
    image_bytes, law_mutation_size_counts_every_image, mutation_size, mutation_size_hint,
    MutationView, TableMutation,
};
use crate::sequence::{
    compare_sequence_keys, key_before, law_keys_are_ordered_by_their_numbers, position,
    EventSequenceKey,
};

verus! {

/// One mutation with its source position, kept for idempotent replay.
#[derive(Debug, PartialEq)]
pub struct TrackedTableMutation {
    sequence_key: EventSequenceKey,
    mutation: TableMutation,
}

/// Contents of a [`TrackedTableMutation`].
pub struct TrackedView {
    pub sequence_key: EventSequenceKey,
    pub mutation: MutationView,
}

impl View for TrackedTableMutation {
    type V = TrackedView;

    closed spec fn view(&self) -> TrackedView {
        TrackedView { sequence_key: self.sequence_key, mutation: self.mutation@ }
    }
}

impl TrackedTableMutation {
    /// Creates one tracked mutation.
    pub fn new(sequence_key: EventSequenceKey, mutation: TableMutation) -> (r: TrackedTableMutation)
        ensures
            r@ == (TrackedView { sequence_key, mutation: mutation@ }),
    {
        TrackedTableMutation { sequence_key, mutation }
    }

    /// Returns the source position of the mutation.
    pub fn sequence_key(&self) -> (r: EventSequenceKey)
        ensures
            r == self@.sequence_key,
    {
        self.sequence_key
    }

    /// Returns the mutation.
    pub fn mutation(&self) -> (r: &TableMutation)
        ensures
            r@ == self@.mutation,
    {
        &self.mutation
    }

    /// Takes the mutation.
    pub fn into_mutation(self) -> (r: TableMutation)
        ensures
            r@ == self@.mutation,
    {
        self.mutation
    }
}

/// Contents of a list of tracked mutations.
pub open spec fn tracked_views(backlog: Seq<TrackedTableMutation>) -> Seq<TrackedView> {
    backlog.map_values(|t: TrackedTableMutation| t@)
}

/// The mutations of tracked mutations.
pub open spec fn events_of(backlog: Seq<TrackedView>) -> Seq<MutationView> {
    backlog.map_values(|t: TrackedView| t.mutation)
}

/// One truncate with its source position, kept for idempotent replay.
#[derive(Clone, Copy, Debug, PartialEq, Eq, Structural)]
pub struct TrackedTruncateEvent {
    pub sequence_key: EventSequenceKey,
    pub options: i8,
}

impl TrackedTruncateEvent {
    /// Creates one tracked truncate.
    pub fn new(sequence_key: EventSequenceKey, options: i8) -> (r: TrackedTruncateEvent)
        ensures
            r == (TrackedTruncateEvent { sequence_key, options }),
    {
        TrackedTruncateEvent { sequence_key, options }
    }

    /// Returns the source position of the truncate.
    pub fn sequence_key(&self) -> (r: EventSequenceKey)
        ensures
            r == self.sequence_key,
    {
        self.sequence_key
    }
}

/// Whether an event at `key` is still to be applied after `last`.
pub open spec fn still_to_apply(key: EventSequenceKey, last: Option<EventSequenceKey>) -> bool {
    match last {
        None => true,
        Some(last) => key_before(last, key),
    }
}

fn is_still_to_apply(key: EventSequenceKey, last: EventSequenceKey) -> (r: bool)
    ensures
        r == key_before(last, key),
{
    match compare_sequence_keys(key, last) {
        core::cmp::Ordering::Greater => true,
        _ => false,
    }
}

/// The tracked mutations that are still to be applied after `last`, in order.
pub open spec fn retained(backlog: Seq<TrackedView>, last: Option<EventSequenceKey>) -> Seq<
    TrackedView,
> {
    backlog.filter(|t: TrackedView| still_to_apply(t.sequence_key, last))
}

/// Drops the mutations that were applied already.
pub fn retain_mutations_after_sequence_key(
    tracked_mutations: Vec<TrackedTableMutation>,
    last_sequence_key: Option<EventSequenceKey>,
) -> (r: Vec<TrackedTableMutation>)
    ensures
        tracked_views(r@) == retained(tracked_views(tracked_mutations@), last_sequence_key),
{
    let ghost all = tracked_views(tracked_mutations@);
    let ghost keep = |t: TrackedView| still_to_apply(t.sequence_key, last_sequence_key);
    let last = match last_sequence_key {
        None => {
            proof {
                lemma_filter_all(all, keep);
            }
            return tracked_mutations;
        },
        Some(last) => last,
    };
    let mut kept: Vec<TrackedTableMutation> = Vec::new();
    proof {
        assert(all.take(0).filter(keep) =~= Seq::empty()) by {
            reveal(Seq::filter);
        }
        assert(tracked_views(kept@) =~= Seq::empty());
    }
    for entry in iter: tracked_mutations
        invariant
            iter.seq() == tracked_mutations@,
            all == tracked_views(tracked_mutations@),
            last_sequence_key == Some(last),
            keep == (|t: TrackedView| still_to_apply(t.sequence_key, last_sequence_key)),
            tracked_views(kept@) == all.take(iter.index()).filter(keep),
    {
        let ghost longer = all.take(iter.index() + 1);
        let ghost held = kept@;
        proof {
            assert(longer.drop_last() =~= all.take(iter.index()));
            assert(longer.last() == entry@);
            reveal(Seq::filter);
        }
        if is_still_to_apply(entry.sequence_key(), last) {
            kept.push(entry);
            assert(tracked_views(kept@) =~= tracked_views(held).push(entry@));
        }
    }
    assert(all.take(all.len() as int) =~= all);
    kept
}

proof fn lemma_filter_all<A>(items: Seq<A>, keep: spec_fn(A) -> bool)
    requires
        forall|i: int| 0 <= i < items.len() ==> keep(#[trigger] items[i]),
    ensures
        items.filter(keep) == items,
    decreases items.len(),
{
    reveal(Seq::filter);
    if items.len() > 0 {
        assert forall|i: int| 0 <= i < items.drop_last().len() implies keep(
            #[trigger] items.drop_last()[i],
        ) by {
            assert(items.drop_last()[i] == items[i]);
        }
        lemma_filter_all(items.drop_last(), keep);
        assert(keep(items[items.len() - 1]));
        assert(items.filter(keep) =~= items);
    } else {
        assert(items.filter(keep) =~= items);
    }
}

/// Drops the truncates that were applied already.
pub fn retain_truncates_after_sequence_key(
    tracked_truncates: Vec<TrackedTruncateEvent>,
    last_sequence_key: Option<EventSequenceKey>,
) -> (r: Vec<TrackedTruncateEvent>)
    ensures
        r@ == tracked_truncates@.filter(
            |t: TrackedTruncateEvent| still_to_apply(t.sequence_key, last_sequence_key),
        ),
{
    let ghost all = tracked_truncates@;
    let ghost keep = |t: TrackedTruncateEvent| still_to_apply(t.sequence_key, last_sequence_key);
    let last = match last_sequence_key {
        None => {
            proof {
                lemma_filter_all(all, keep);
            }
            return tracked_truncates;
        },
        Some(last) => last,
    };
    let mut kept: Vec<TrackedTruncateEvent> = Vec::new();
    proof {
        assert(all.take(0).filter(keep) =~= Seq::empty()) by {
            reveal(Seq::filter);
        }
    }
    for entry in iter: tracked_truncates
        invariant
            iter.seq() == tracked_truncates@,
            all == tracked_truncates@,
            last_sequence_key == Some(last),
            keep == (|t: TrackedTruncateEvent| still_to_apply(t.sequence_key, last_sequence_key)),
            kept@ == all.take(iter.index()).filter(keep),
    {
        let ghost longer = all.take(iter.index() + 1);
        proof {
            assert(longer.drop_last() =~= all.take(iter.index()));
            assert(longer.last() == entry);
            reveal(Seq::filter);
        }
        if is_still_to_apply(entry.sequence_key(), last) {
            kept.push(entry);
        }
    }
    assert(all.take(all.len() as int) =~= all);
    kept
}

/// Retaining by one position and then by another is retaining by the greater of
/// them.
pub proof fn law_retaining_composes(
    backlog: Seq<TrackedView>,
    first: EventSequenceKey,
    second: EventSequenceKey,
)
    ensures
        retained(retained(backlog, Some(first)), Some(second)) == retained(
            backlog,
            Some(
                if key_before(first, second) {
                    second
                } else {
                    first
                },
            ),
        ),
    decreases backlog.len(),
{
    reveal(Seq::filter);
    if backlog.len() > 0 {
        law_retaining_composes(backlog.drop_last(), first, second);
        let kept = retained(backlog.drop_last(), Some(first));
        let item = backlog.last();
        if still_to_apply(item.sequence_key, Some(first)) {
            assert(kept.push(item).drop_last() =~= kept);
        }
    }
}

/// Row and byte caps of one atomic streaming batch.
#[derive(Clone, Copy, Debug, PartialEq, Eq, Structural)]
pub struct DuckLakeStreamingBatchConfig {
    pub max_rows: usize,
    pub max_bytes: usize,
}

/// The error of caps that admit no batch.
pub open spec fn empty_cap_error() -> ErrorView {
    detailed_error(
        ErrorKind::ConfigError,
        "Invalid DuckLake streaming batch limits"@,
        "Streaming batches need room for at least one row and one byte"@,
    )
}

/// The caps of batches, if they admit at least one row and one byte.
pub open spec fn accepted_caps(max_rows: usize, max_bytes: usize) -> Result<
    DuckLakeStreamingBatchConfig,
    ErrorView,
> {
    if max_rows == 0 || max_bytes == 0 {
        Err(empty_cap_error())
    } else {
        Ok(DuckLakeStreamingBatchConfig { max_rows, max_bytes })
    }
}

impl DuckLakeStreamingBatchConfig {
    /// Creates caps that admit at least one row and one byte.
    pub fn new(max_rows: usize, max_bytes: usize) -> (r: Result<
        DuckLakeStreamingBatchConfig,
        EtlError,
    >)
        ensures
            match r {
                Ok(config) => accepted_caps(max_rows, max_bytes) == Ok::<
                    DuckLakeStreamingBatchConfig,
                    ErrorView,
                >(config),
                Err(error) => accepted_caps(max_rows, max_bytes) == Err::<
                    DuckLakeStreamingBatchConfig,
                    ErrorView,
                >(error@),
            },
            match r {
                Ok(config) => max_rows > 0 && max_bytes > 0 && config == (
                DuckLakeStreamingBatchConfig { max_rows, max_bytes }),
                Err(error) => (max_rows == 0 || max_bytes == 0) && error@ == empty_cap_error(),
            },
    {
        if max_rows == 0 || max_bytes == 0 {
            return Err(
                EtlError::with_detail(
                    ErrorKind::ConfigError,
                    "Invalid DuckLake streaming batch limits",
                    "Streaming batches need room for at least one row and one byte".to_owned(),
                ),
            );
        }
        Ok(DuckLakeStreamingBatchConfig { max_rows, max_bytes })
    }
}

impl Default for DuckLakeStreamingBatchConfig {
    /// Returns small batches, so that one transaction stays cheap.
    fn default() -> (r: DuckLakeStreamingBatchConfig)
        ensures
            r == (DuckLakeStreamingBatchConfig { max_rows: 16, max_bytes: 16_777_216 }),
    {
        DuckLakeStreamingBatchConfig { max_rows: 16, max_bytes: 16_777_216 }
    }
}

/// Contents of batch inputs.
pub open spec fn chunk_views(chunks: Seq<Vec<TrackedTableMutation>>) -> Seq<Seq<TrackedView>> {
    chunks.map_values(|c: Vec<TrackedTableMutation>| tracked_views(c@))
}

/// The decoded bytes tracked mutations carry, capped at the largest machine
/// size.
pub open spec fn tracked_size(backlog: Seq<TrackedView>) -> nat
    decreases backlog.len(),
{
    if backlog.len() == 0 {
        0
    } else {
        capped_sum(tracked_size(backlog.drop_last()), mutation_size(backlog.last().mutation))
    }
}

/// The batch inputs closed so far, and the one being filled.
pub struct SplitView {
    pub chunks: Seq<Seq<TrackedView>>,
    pub pending: Seq<TrackedView>,
}

/// The split once one more mutation was placed. A mutation that would push a
/// started batch over its byte cap starts the next one, and a batch that
/// reaches its row cap is closed.
pub open spec fn split_step(
    config: DuckLakeStreamingBatchConfig,
    split: SplitView,
    entry: TrackedView,
) -> SplitView {
    let opened = if split.pending.len() > 0 && capped_sum(
        tracked_size(split.pending),
        mutation_size(entry.mutation),
    ) > config.max_bytes {
        SplitView { chunks: split.chunks.push(split.pending), pending: Seq::empty() }
    } else {
        split
    };
    let filled = opened.pending.push(entry);
    if filled.len() >= config.max_rows {
        SplitView { chunks: opened.chunks.push(filled), pending: Seq::empty() }
    } else {
        SplitView { pending: filled, ..opened }
    }
}

/// The split of tracked mutations, in order.
pub open spec fn split_steps(
    config: DuckLakeStreamingBatchConfig,
    backlog: Seq<TrackedView>,
) -> SplitView
    decreases backlog.len(),
{
    if backlog.len() == 0 {
        SplitView { chunks: Seq::empty(), pending: Seq::empty() }
    } else {
        split_step(config, split_steps(config, backlog.drop_last()), backlog.last())
    }
}

/// The batch inputs tracked mutations are split into.
pub open spec fn split_chunks(
    config: DuckLakeStreamingBatchConfig,
    backlog: Seq<TrackedView>,
) -> Seq<Seq<TrackedView>> {
    let split = split_steps(config, backlog);
    if split.pending.len() > 0 {
        split.chunks.push(split.pending)
    } else {
        split.chunks
    }
}

/// Splits a table's mutations into ordered atomic batch inputs.
pub fn split_tracked_mutations(
    config: DuckLakeStreamingBatchConfig,
    tracked_mutations: Vec<TrackedTableMutation>,
) -> (r: Vec<Vec<TrackedTableMutation>>)
    ensures
        chunk_views(r@) == split_chunks(config, tracked_views(tracked_mutations@)),
{
    let ghost all = tracked_views(tracked_mutations@);
    let mut chunks: Vec<Vec<TrackedTableMutation>> = Vec::new();
    let mut pending: Vec<TrackedTableMutation> = Vec::new();
    let mut pending_bytes: usize = 0;
    proof {
        assert(all.take(0) =~= Seq::empty());
        assert(chunk_views(chunks@) =~= Seq::empty());
        assert(tracked_views(pending@) =~= Seq::empty());
    }
    for entry in iter: tracked_mutations
        invariant
            iter.seq() == tracked_mutations@,
            all == tracked_views(tracked_mutations@),
            split_steps(config, all.take(iter.index())) == (SplitView {
                chunks: chunk_views(chunks@),
                pending: tracked_views(pending@),
            }),
            pending_bytes == tracked_size(tracked_views(pending@)),
    {
        let ghost longer = all.take(iter.index() + 1);
        let ghost start = SplitView {
            chunks: chunk_views(chunks@),
            pending: tracked_views(pending@),
        };
        proof {
            assert(longer.drop_last() =~= all.take(iter.index()));
            assert(longer.last() == entry@);
        }
        let mutation_bytes: usize = mutation_size_hint(entry.mutation());
        if pending.len() > 0 && pending_bytes.saturating_add(mutation_bytes) > config.max_bytes {
            let ghost held = chunks@;
            let mut full: Vec<TrackedTableMutation> = Vec::new();
            core::mem::swap(&mut full, &mut pending);
            chunks.push(full);
            pending_bytes = 0;
            proof {
                assert(chunk_views(chunks@) =~= chunk_views(held).push(tracked_views(full@)));
                assert(tracked_views(pending@) =~= Seq::empty());
                assert(tracked_size(tracked_views(pending@)) == 0);
            }
        }
        pending_bytes = pending_bytes.saturating_add(mutation_bytes);
        let ghost held = pending@;
        pending.push(entry);
        proof {
            assert(tracked_views(pending@) =~= tracked_views(held).push(entry@));
            assert(tracked_views(pending@).drop_last() =~= tracked_views(held));
            assert(tracked_size(tracked_views(pending@)) == capped_sum(
                tracked_size(tracked_views(held)),
                mutation_size(entry@.mutation),
            ));
        }
        if pending.len() >= config.max_rows {
            let ghost held = chunks@;
            let mut full: Vec<TrackedTableMutation> = Vec::new();
            core::mem::swap(&mut full, &mut pending);
            chunks.push(full);
            pending_bytes = 0;
            proof {
                assert(chunk_views(chunks@) =~= chunk_views(held).push(tracked_views(full@)));
                assert(tracked_views(pending@) =~= Seq::empty());
                assert(tracked_size(tracked_views(pending@)) == 0);
            }
        }
    }
    assert(all.take(all.len() as int) =~= all);
    if pending.len() > 0 {
        let ghost held = chunks@;
        chunks.push(pending);
        assert(chunk_views(chunks@) =~= chunk_views(held).push(tracked_views(pending@)));
    }
    chunks
}

/// The batch inputs, one after the other.
pub open spec fn concatenated(chunks: Seq<Seq<TrackedView>>) -> Seq<TrackedView>
    decreases chunks.len(),
{
    if chunks.len() == 0 {
        Seq::empty()
    } else {
        concatenated(chunks.drop_last()) + chunks.last()
    }
}

/// Whether a batch input keeps to the caps: it holds at least one mutation, at
/// most the row cap, and no more bytes than the byte cap unless it is a single
/// mutation.
pub open spec fn within_caps(
    config: DuckLakeStreamingBatchConfig,
    chunk: Seq<TrackedView>,
) -> bool {
    &&& chunk.len() >= 1
    &&& chunk.len() <= config.max_rows || chunk.len() == 1
    &&& tracked_size(chunk) <= config.max_bytes || chunk.len() == 1
}

proof fn lemma_concatenated_push(chunks: Seq<Seq<TrackedView>>, chunk: Seq<TrackedView>)
    ensures
        concatenated(chunks.push(chunk)) == concatenated(chunks) + chunk,
{
    assert(chunks.push(chunk).drop_last() =~= chunks);
}

proof fn lemma_split_steps(config: DuckLakeStreamingBatchConfig, backlog: Seq<TrackedView>)
    ensures
        concatenated(split_steps(config, backlog).chunks) + split_steps(config, backlog).pending
            == backlog,
        forall|k: int|
            0 <= k < split_steps(config, backlog).chunks.len() ==> within_caps(
                config,
                #[trigger] split_steps(config, backlog).chunks[k],
            ),
        split_steps(config, backlog).pending.len() > 0 ==> within_caps(
            config,
            split_steps(config, backlog).pending,
        ) && split_steps(config, backlog).pending.len() < config.max_rows,
    decreases backlog.len(),
{
    if backlog.len() == 0 {
        assert(concatenated(Seq::empty()) + Seq::<TrackedView>::empty() =~= backlog);
    } else {
        let earlier = backlog.drop_last();
        let item = backlog.last();
        lemma_split_steps(config, earlier);
        let split = split_steps(config, earlier);
        let next = split_steps(config, backlog);
        let closes = split.pending.len() > 0 && capped_sum(
            tracked_size(split.pending),
            mutation_size(item.mutation),
        ) > config.max_bytes;
        let opened = if closes {
            SplitView { chunks: split.chunks.push(split.pending), pending: Seq::empty() }
        } else {
            split
        };
        if closes {
            lemma_concatenated_push(split.chunks, split.pending);
        }
        assert(concatenated(opened.chunks) + opened.pending =~= earlier);
        assert(forall|k: int|
            0 <= k < opened.chunks.len() ==> within_caps(config, #[trigger] opened.chunks[k]));
        let filled = opened.pending.push(item);
        assert(filled.drop_last() =~= opened.pending);
        assert(within_caps(config, filled));
        assert(backlog =~= earlier.push(item));
        assert(concatenated(opened.chunks) + filled =~= (concatenated(opened.chunks)
            + opened.pending).push(item));
        if filled.len() >= config.max_rows {
            lemma_concatenated_push(opened.chunks, filled);
            assert(concatenated(next.chunks) + next.pending =~= backlog);
        }
    }
}

/// Whether a batch input takes no further mutation: it is at its row cap, or the
/// mutation would push it over its byte cap.
pub open spec fn is_full(
    config: DuckLakeStreamingBatchConfig,
    chunk: Seq<TrackedView>,
    next: TrackedView,
) -> bool {
    chunk.len() >= config.max_rows || capped_sum(
        tracked_size(chunk),
        mutation_size(next.mutation),
    ) > config.max_bytes
}

/// The batch inputs of a split, with the one being filled.
spec fn started(split: SplitView) -> Seq<Seq<TrackedView>> {
    if split.pending.len() > 0 {
        split.chunks.push(split.pending)
    } else {
        split.chunks
    }
}

/// Every closed batch input is full: it takes no further mutation, or not the one
/// that the next batch input starts with.
proof fn lemma_closed_chunks_are_full(
    config: DuckLakeStreamingBatchConfig,
    backlog: Seq<TrackedView>,
)
    ensures
        forall|k: int|
            0 <= k < split_steps(config, backlog).chunks.len() ==> (#[trigger] split_steps(
                config,
                backlog,
            ).chunks[k]).len() >= config.max_rows || (k + 1 < started(
                split_steps(config, backlog),
            ).len() && is_full(
                config,
                split_steps(config, backlog).chunks[k],
                started(split_steps(config, backlog))[k + 1].first(),
            )),
    decreases backlog.len(),
{
    if backlog.len() > 0 {
        let earlier = backlog.drop_last();
        let item = backlog.last();
        lemma_closed_chunks_are_full(config, earlier);
        lemma_split_steps(config, earlier);
        let split = split_steps(config, earlier);
        let next = split_steps(config, backlog);
        let before = started(split);
        let after = started(next);
        let closes = split.pending.len() > 0 && capped_sum(
            tracked_size(split.pending),
            mutation_size(item.mutation),
        ) > config.max_bytes;
        assert forall|k: int| 0 <= k < before.len() implies k < after.len() && (
        #[trigger] after[k]).first() == before[k].first() by {
            if k < split.chunks.len() {
                assert(after[k] == before[k]);
            } else if !closes {
                assert(after[k] =~= split.pending.push(item));
            }
        }
        assert forall|k: int| 0 <= k < next.chunks.len() implies (#[trigger] next.chunks[k]).len()
            >= config.max_rows || (k + 1 < after.len() && is_full(
            config,
            next.chunks[k],
            after[k + 1].first(),
        )) by {
            if k < split.chunks.len() {
                assert(next.chunks[k] == split.chunks[k]);
                if split.chunks[k].len() < config.max_rows {
                    assert(after[k + 1].first() == before[k + 1].first());
                }
            } else if closes && k == split.chunks.len() {
                assert(next.chunks[k] == split.pending);
                assert(after[k + 1] =~= seq![item]);
            }
        }
    }
}

/// Splitting keeps every mutation, once and in order, every batch input keeps to
/// the caps, and none is closed early: the first mutation of the next one would
/// have broken a cap.
pub proof fn law_split_keeps_order_and_caps(
    config: DuckLakeStreamingBatchConfig,
    backlog: Seq<TrackedView>,
)
    ensures
        concatenated(split_chunks(config, backlog)) == backlog,
        forall|k: int|
            0 <= k < split_chunks(config, backlog).len() ==> within_caps(
                config,
                #[trigger] split_chunks(config, backlog)[k],
            ),
        forall|k: int|
            0 <= k < split_chunks(config, backlog).len() - 1 ==> is_full(
                config,
                #[trigger] split_chunks(config, backlog)[k],
                split_chunks(config, backlog)[k + 1].first(),
            ),
{
    lemma_split_steps(config, backlog);
    lemma_closed_chunks_are_full(config, backlog);
    assert(started(split_steps(config, backlog)) == split_chunks(config, backlog));
    assert forall|k: int| 0 <= k < split_chunks(config, backlog).len() - 1 implies is_full(
        config,
        #[trigger] split_chunks(config, backlog)[k],
        split_chunks(config, backlog)[k + 1].first(),
    ) by {
        assert(split_chunks(config, backlog)[k] == split_steps(config, backlog).chunks[k]);
    }
    let split = split_steps(config, backlog);
    if split.pending.len() > 0 {
        lemma_concatenated_push(split.chunks, split.pending);
    } else {
        assert(concatenated(split.chunks) + split.pending =~= concatenated(split.chunks));
    }
}

/// Whether mutations are in source order, each position once.
pub open spec fn in_order(backlog: Seq<TrackedView>) -> bool {
    forall|i: int, j: int|
        0 <= i < j < backlog.len() ==> key_before(
            (#[trigger] backlog[i]).sequence_key,
            (#[trigger] backlog[j]).sequence_key,
        )
}

/// Where chunk `index` starts in the concatenation.
spec fn chunk_start(chunks: Seq<Seq<TrackedView>>, index: int) -> int {
    concatenated(chunks.take(index)).len() as int
}

proof fn lemma_chunk_position(chunks: Seq<Seq<TrackedView>>, index: int)
    requires
        0 <= index < chunks.len(),
    ensures
        chunk_start(chunks, index) + chunks[index].len() <= concatenated(chunks).len(),
        forall|i: int|
            0 <= i < chunks[index].len() ==> concatenated(chunks)[chunk_start(chunks, index) + i]
                == #[trigger] chunks[index][i],
    decreases chunks.len(),
{
    let shorter = chunks.drop_last();
    if index == chunks.len() - 1 {
        assert(chunks.take(index) =~= shorter);
    } else {
        lemma_chunk_position(shorter, index);
        assert(shorter.take(index) =~= chunks.take(index));
        assert(shorter[index] == chunks[index]);
        assert forall|i: int| 0 <= i < chunks[index].len() implies concatenated(
            chunks,
        )[chunk_start(chunks, index) + i] == #[trigger] chunks[index][i] by {
            assert(shorter[index][i] == chunks[index][i]);
        }
    }
}

proof fn lemma_chunk_starts(chunks: Seq<Seq<TrackedView>>, left: int, right: int)
    requires
        0 <= left < right <= chunks.len(),
    ensures
        chunk_start(chunks, left) + chunks[left].len() <= chunk_start(chunks, right),
    decreases right,
{
    let prefix = chunks.take(right);
    assert(prefix.drop_last() =~= chunks.take(right - 1));
    if left < right - 1 {
        lemma_chunk_starts(chunks, left, right - 1);
    }
}

/// Batch inputs of ordered mutations are in source order: each ends before the
/// next one starts, and starts no later than it ends.
pub proof fn law_split_keeps_source_order(
    config: DuckLakeStreamingBatchConfig,
    backlog: Seq<TrackedView>,
)
    requires
        in_order(backlog),
    ensures
        forall|k: int|
            0 <= k < split_chunks(config, backlog).len() ==> {
                let chunk = #[trigger] split_chunks(config, backlog)[k];
                &&& chunk.len() > 0
                &&& !key_before(chunk.last().sequence_key, chunk.first().sequence_key)
            },
        forall|j: int, k: int|
            0 <= j < k < split_chunks(config, backlog).len() ==> key_before(
                (#[trigger] split_chunks(config, backlog)[j]).last().sequence_key,
                (#[trigger] split_chunks(config, backlog)[k]).first().sequence_key,
            ),
{
    law_split_keeps_order_and_caps(config, backlog);
    let chunks = split_chunks(config, backlog);
    assert forall|k: int| 0 <= k < chunks.len() implies {
        let chunk = #[trigger] chunks[k];
        &&& chunk.len() > 0
        &&& !key_before(chunk.last().sequence_key, chunk.first().sequence_key)
    } by {
        let chunk = chunks[k];
        assert(within_caps(config, chunk));
        lemma_chunk_position(chunks, k);
        let start = chunk_start(chunks, k);
        assert(backlog[start] == chunk[0]);
        assert(backlog[start + chunk.len() - 1] == chunk[chunk.len() - 1]);
    }
    assert forall|j: int, k: int| 0 <= j < k < chunks.len() implies key_before(
        (#[trigger] chunks[j]).last().sequence_key,
        (#[trigger] chunks[k]).first().sequence_key,
    ) by {
        assert(within_caps(config, chunks[j]));
        assert(within_caps(config, chunks[k]));
        lemma_chunk_position(chunks, j);
        lemma_chunk_position(chunks, k);
        lemma_chunk_starts(chunks, j, k);
        let left = chunk_start(chunks, j) + chunks[j].len() - 1;
        let right = chunk_start(chunks, k);
        assert(backlog[left] == chunks[j][chunks[j].len() - 1]);
        assert(backlog[right] == chunks[k][0]);
    }
}

/// Every retained mutation comes after the position, and every mutation that
/// comes after it is retained.
pub proof fn law_retained_are_exactly_the_later_ones(
    backlog: Seq<TrackedView>,
    last: EventSequenceKey,
    entry: TrackedView,
)
    ensures
        retained(backlog, Some(last)).contains(entry) <==> backlog.contains(entry) && key_before(
            last,
            entry.sequence_key,
        ),
    decreases backlog.len(),
{
    reveal(Seq::filter);
    let kept = retained(backlog, Some(last));
    if backlog.len() > 0 {
        let earlier = backlog.drop_last();
        let newest = backlog.last();
        let shorter = retained(earlier, Some(last));
        law_retained_are_exactly_the_later_ones(earlier, last, entry);
        assert(backlog =~= earlier.push(newest));
        assert(backlog.contains(entry) <==> earlier.contains(entry) || entry == newest) by {
            if earlier.contains(entry) {
                let k = choose|k: int| 0 <= k < earlier.len() && earlier[k] == entry;
                assert(backlog[k] == entry);
            }
            if backlog.contains(entry) {
                let k = choose|k: int| 0 <= k < backlog.len() && backlog[k] == entry;
                if k < earlier.len() {
                    assert(earlier[k] == entry);
                }
            }
            assert(backlog[earlier.len() as int] == newest);
        }
        if key_before(last, newest.sequence_key) {
            assert(kept =~= shorter.push(newest));
            assert(kept.contains(entry) <==> shorter.contains(entry) || entry == newest) by {
                if shorter.contains(entry) {
                    let k = choose|k: int| 0 <= k < shorter.len() && shorter[k] == entry;
                    assert(kept[k] == entry);
                }
                if kept.contains(entry) {
                    let k = choose|k: int| 0 <= k < kept.len() && kept[k] == entry;
                    if k < shorter.len() {
                        assert(shorter[k] == entry);
                    }
                }
                assert(kept[shorter.len() as int] == newest);
            }
        }
    }
}

proof fn lemma_same_filter<A>(
    items: Seq<A>,
    left: spec_fn(A) -> bool,
    right: spec_fn(A) -> bool,
)
    requires
        forall|item: A| #[trigger] left(item) == right(item),
    ensures
        items.filter(left) == items.filter(right),
    decreases items.len(),
{
    reveal(Seq::filter);
    if items.len() > 0 {
        lemma_same_filter(items.drop_last(), left, right);
        assert(left(items.last()) == right(items.last()));
    }
}

/// What is retained after a position is what comes after it in the source's log, by
/// number, in order and nothing else. Without a position everything is retained.
pub proof fn law_later_positions_are_retained(
    backlog: Seq<TrackedView>,
    truncates: Seq<TrackedTruncateEvent>,
    last: EventSequenceKey,
)
    ensures
        retained(backlog, Some(last)) == backlog.filter(
            |t: TrackedView| position(t.sequence_key) > position(last),
        ),
        retained(backlog, None) == backlog,
        truncates.filter(
            |t: TrackedTruncateEvent| still_to_apply(t.sequence_key, Some(last)),
        ) == truncates.filter(
            |t: TrackedTruncateEvent| position(t.sequence_key) > position(last),
        ),
        truncates.filter(|t: TrackedTruncateEvent| still_to_apply(t.sequence_key, None))
            == truncates,
{
    assert forall|key: EventSequenceKey| #[trigger] still_to_apply(key, Some(last)) == (position(
        key,
    ) > position(last)) by {
        law_keys_are_ordered_by_their_numbers(last, key);
    }
    lemma_same_filter(
        backlog,
        |t: TrackedView| still_to_apply(t.sequence_key, Some(last)),
        |t: TrackedView| position(t.sequence_key) > position(last),
    );
    lemma_same_filter(
        truncates,
        |t: TrackedTruncateEvent| still_to_apply(t.sequence_key, Some(last)),
        |t: TrackedTruncateEvent| position(t.sequence_key) > position(last),
    );
    lemma_filter_all(backlog, |t: TrackedView| still_to_apply(t.sequence_key, None));
    lemma_filter_all(truncates, |t: TrackedTruncateEvent| still_to_apply(t.sequence_key, None));
}

/// The mutation of a tracked mutation.
pub closed spec fn mutation_of(entry: TrackedTableMutation) -> TableMutation {
    entry.mutation
}

/// The position of a tracked mutation.
pub closed spec fn position_of(entry: TrackedTableMutation) -> int {
    position(entry.sequence_key)
}

/// The bytes of every row image that tracked mutations carry, without a cap.
pub open spec fn carried_bytes(entries: Seq<TrackedTableMutation>) -> nat
    decreases entries.len(),
{
    if entries.len() == 0 {
        0
    } else {
        carried_bytes(entries.drop_last()) + image_bytes(mutation_of(entries.last()))
    }
}

/// A tracked mutation holds the mutation and the position it shows.
pub proof fn law_tracked_mutation_holds_both(entry: TrackedTableMutation)
    ensures
        entry@.mutation == mutation_of(entry)@,
        position(entry@.sequence_key) == position_of(entry),
{
}

/// The size of tracked mutations counts every row image of each of them, up to the
/// largest machine size.
pub proof fn law_tracked_size_counts_every_image(entries: Seq<TrackedTableMutation>)
    ensures
        tracked_size(tracked_views(entries)) == at_most_machine(carried_bytes(entries)),
    decreases entries.len(),
{
    let views = tracked_views(entries);
    if entries.len() > 0 {
        law_tracked_size_counts_every_image(entries.drop_last());
        assert(views.drop_last() =~= tracked_views(entries.drop_last()));
        assert(views.last() == entries.last()@);
        law_mutation_size_counts_every_image(entries.last().mutation);
    } else {
        assert(views.len() == 0);
    }
}

/// Batch inputs by their values: whatever `chunks` a backlog is split into, they
/// hold its mutations in order, each holds at least one, none holds more mutations
/// than the row cap, and one that holds more than one mutation carries no more
/// bytes, over all of their row images, than the byte cap. A batch input ends early
/// only where the next mutation would break one of the caps.
pub proof fn law_batch_inputs_keep_to_the_caps(
    config: DuckLakeStreamingBatchConfig,
    backlog: Seq<TrackedTableMutation>,
    chunks: Seq<Vec<TrackedTableMutation>>,
)
    requires
        chunk_views(chunks) == split_chunks(config, tracked_views(backlog)),
    ensures
        concatenated(chunk_views(chunks)) == tracked_views(backlog),
        forall|k: int|
            0 <= k < chunks.len() ==> {
                let held = (#[trigger] chunks[k])@.len();
                1 <= held && (held <= config.max_rows || held == 1)
            },
        forall|k: int|
            0 <= k < chunks.len() && (#[trigger] chunks[k])@.len() > 1 && config.max_bytes
                < usize::MAX ==> carried_bytes(chunks[k]@) <= config.max_bytes,
        forall|k: int|
            0 <= k < chunks.len() - 1 && (#[trigger] chunks[k])@.len() < config.max_rows ==> {
                &&& config.max_bytes < usize::MAX
                &&& carried_bytes(chunks[k]@) + image_bytes(mutation_of(chunks[k + 1]@[0]))
                    > config.max_bytes
            },
{
    let views = chunk_views(chunks);
    law_split_keeps_order_and_caps(config, tracked_views(backlog));
    assert forall|k: int| 0 <= k < chunks.len() implies {
        let chunk = #[trigger] chunks[k];
        &&& 1 <= chunk@.len()
        &&& chunk@.len() <= config.max_rows || chunk@.len() == 1
        &&& chunk@.len() > 1 && config.max_bytes < usize::MAX ==> carried_bytes(chunk@)
            <= config.max_bytes
        &&& k < chunks.len() - 1 && chunk@.len() < config.max_rows ==> {
            &&& config.max_bytes < usize::MAX
            &&& carried_bytes(chunk@) + image_bytes(mutation_of(chunks[k + 1]@[0]))
                > config.max_bytes
        }
    } by {
        assert(views[k] == tracked_views(chunks[k]@));
        assert(within_caps(config, views[k]));
        law_tracked_size_counts_every_image(chunks[k]@);
        if k < chunks.len() - 1 {
            assert(views[k + 1] == tracked_views(chunks[k + 1]@));
            assert(within_caps(config, views[k + 1]));
            assert(is_full(config, views[k], views[k + 1].first()));
            assert(views[k + 1].first() == chunks[k + 1]@[0]@);
            law_mutation_size_counts_every_image(chunks[k + 1]@[0].mutation);
        }
    }
}

/// Caps are accepted exactly when they leave room for one row and for one byte, and are
/// then kept as they are.
pub proof fn law_caps_need_room_for_a_row_and_a_byte(max_rows: usize, max_bytes: usize)
    ensures
        match accepted_caps(max_rows, max_bytes) {
            Ok(config) => 1 <= max_rows && 1 <= max_bytes && config.max_rows == max_rows
                && config.max_bytes == max_bytes,
            Err(error) => (max_rows < 1 || max_bytes < 1) && error.kind is ConfigError,
        },
{
}

} // verus!
