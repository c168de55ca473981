//! A table's backlog, turned into atomic batches one at a time.
//!
//! Preparation is interleaved with application, because completing partial
//! updates reads stored values: a batch must see the rows that every earlier
//! batch wrote, so its recovery read runs only once the previous batch has
//! committed.

use vstd::prelude::*;

use crate::backlog::{
    chunk_views, concatenated, events_of, law_split_keeps_order_and_caps, split_chunks,
    split_tracked_mutations, tracked_views, DuckLakeStreamingBatchConfig, TrackedTableMutation,
    TrackedView,
};
use crate::batches::{
    batch_views, mutation_batch, push_prepared_mutation_batch, BatchView,
    PreparedDuckLakeTableBatch,
};
use crate::data::{index_views, CellView};
use crate::equivalence::{
    apply_events, apply_ops, by_identity, law_normalized_statements_replay_events,
    law_ordered_statements_replay_events, lemma_event_same, partial_rows_fit, recovered_from,
    touched_identities,
};
use crate::error::{ErrorView, EtlError};
use crate::identity::{canonical_identity, has_canonical_identity};
use crate::mutation::{mutation_views, MutationView, TableMutation};
use crate::normalize::prepared_ops;
use crate::partial_update::{
    is_requested, PartialUpdateRecoveryRequest, RecoveredPartialRows, RecoveredView,
};
use crate::recovery_plan::{
    borrowed_views, byte_budget, columns_left_out, covered_count, covered_mutation_count,
    event_gaps, first_at, law_plan_reads_mutations_as_they_are,
    law_plan_requests_first_seen_identities, plan_partial_update_recovery, planned,
    recovery_byte_budget, touches, PlanView,
};
use crate::recovery_read::reads_nothing;
use crate::rewrite::same_items;
use crate::schema::{
    column_views, ColumnSchema, DuckLakeTableName, ReplicatedTableSchema, SchemaView,
};

verus! {

/// A table's backlog on its way into atomic batches, driven by the host.
pub struct MutationRun {
    config: DuckLakeStreamingBatchConfig,
    // The last chunk is the next one.
    pending: Vec<Vec<TrackedTableMutation>>,
    current: Vec<TrackedTableMutation>,
}

/// Contents of a [`MutationRun`]: the chunk being prepared, and those that
/// follow it, in order.
pub struct BacklogView {
    pub config: DuckLakeStreamingBatchConfig,
    pub current: Seq<TrackedView>,
    pub chunks: Seq<Seq<TrackedView>>,
}

impl View for MutationRun {
    type V = BacklogView;

    closed spec fn view(&self) -> BacklogView {
        BacklogView {
            config: self.config,
            current: tracked_views(self.current@),
            chunks: chunk_views(self.pending@).reverse(),
        }
    }
}

/// What the host does for the chunk that is to be prepared.
pub enum ChunkStep {
    /// The backlog is empty.
    Done,
    /// Prepare the chunk with nothing recovered.
    Prepare,
    /// Read stored values first.
    Recover(PartialUpdateRecoveryRequest),
}

/// The events that no batch was prepared from yet, in order.
pub open spec fn remaining(run: BacklogView) -> Seq<TrackedView> {
    run.current + concatenated(run.chunks)
}

/// The run once its next chunk is the one to prepare.
pub open spec fn at_next_chunk(run: BacklogView) -> BacklogView {
    BacklogView { current: run.chunks.first(), chunks: run.chunks.drop_first(), ..run }
}

/// The run once a recovery covered that many events of the current chunk: the
/// others come first in the next one.
pub open spec fn narrowed(run: BacklogView, count: int) -> BacklogView {
    if count < run.current.len() {
        BacklogView {
            current: run.current.take(count),
            chunks: seq![run.current.skip(count)] + run.chunks,
            ..run
        }
    } else {
        run
    }
}

/// The run once its current chunk was prepared.
pub open spec fn without_current(run: BacklogView) -> BacklogView {
    BacklogView { current: Seq::empty(), ..run }
}

/// Whether stored values are read for the events of a chunk.
pub open spec fn needs_recovery(schema: SchemaView, events: Seq<MutationView>) -> bool {
    &&& canonical_identity(schema)
    &&& planned(schema, events) matches Ok(plan) && plan.keys.len() > 0
        && !plan.columns.is_empty()
}

impl MutationRun {
    /// Starts the run of a backlog.
    pub fn new(
        config: DuckLakeStreamingBatchConfig,
        tracked_mutations: Vec<TrackedTableMutation>,
    ) -> (r: MutationRun)
        ensures
            r@ == (BacklogView {
                config,
                current: Seq::empty(),
                chunks: split_chunks(config, tracked_views(tracked_mutations@)),
            }),
    {
        let mut chunks = split_tracked_mutations(config, tracked_mutations);
        let ghost all = chunks@;
        let mut pending: Vec<Vec<TrackedTableMutation>> = Vec::new();
        assert(all.take(all.len() as int) =~= all);
        while chunks.len() > 0
            invariant
                chunks@ == all.take(chunks@.len() as int),
                chunks@.len() <= all.len(),
                pending@.len() == all.len() - chunks@.len(),
                forall|k: int|
                    0 <= k < pending@.len() ==> #[trigger] pending@[k] == all[all.len() - 1 - k],
            decreases chunks@.len(),
        {
            let ghost held = chunks@;
            match chunks.pop() {
                Some(chunk) => {
                    assert(chunk == all[held.len() - 1]);
                    pending.push(chunk);
                },
                None => {},
            }
            assert(chunks@ =~= all.take(chunks@.len() as int));
        }
        let r = MutationRun { config, pending, current: Vec::new() };
        assert(r@.chunks =~= chunk_views(all));
        assert(r@.current =~= Seq::empty());
        r
    }

    /// Takes the next chunk and decides whether stored values are read for it.
    pub fn next_chunk(&mut self, schema: &ReplicatedTableSchema) -> (r: Result<ChunkStep, EtlError>)
        requires
            old(self)@.current.len() == 0,
        ensures
            old(self)@.chunks.len() == 0 <==> r matches Ok(ChunkStep::Done),
            old(self)@.chunks.len() == 0 ==> final(self)@ == old(self)@,
            old(self)@.chunks.len() > 0 ==> {
                let events = events_of(old(self)@.chunks.first());
                &&& final(self)@ == at_next_chunk(old(self)@)
                &&& needs_recovery(schema@, events) == (r matches Ok(ChunkStep::Recover(_)))
                &&& match r {
                    Ok(ChunkStep::Done) => false,
                    Ok(ChunkStep::Prepare) => canonical_identity(schema@) ==> {
                        &&& planned(schema@, events) is Ok
                        &&& planned(schema@, events)->Ok_0.keys.len() == 0 || planned(
                            schema@,
                            events,
                        )->Ok_0.columns.is_empty()
                    },
                    Ok(ChunkStep::Recover(request)) => {
                        &&& canonical_identity(schema@)
                        &&& request.wf()
                        &&& !reads_nothing(request@)
                        &&& planned(schema@, events) is Ok
                        &&& request@.keys == planned(schema@, events)->Ok_0.keys
                        &&& index_views(request@.columns).to_set() == planned(
                            schema@,
                            events,
                        )->Ok_0.columns
                        &&& request@.max_recovered_bytes == byte_budget(
                            old(self)@.config,
                            old(self)@.chunks.first(),
                        )
                    },
                    Err(error) => {
                        &&& canonical_identity(schema@)
                        &&& planned(schema@, events) == Err::<PlanView, ErrorView>(error@)
                    },
                }
            },
    {
        let ghost before = self@;
        let ghost held = self.pending@;
        assert(before.chunks.len() == held.len());
        match self.pending.pop() {
            None => return Ok(ChunkStep::Done),
            Some(chunk) => {
                self.current = chunk;
                proof {
                    assert(self.pending@ =~= held.drop_last());
                    assert(before.chunks.first() == tracked_views(chunk@));
                    assert(self@.chunks =~= before.chunks.drop_first());
                }
            },
        }
        if !has_canonical_identity(schema) {
            return Ok(ChunkStep::Prepare);
        }
        let ghost events = events_of(tracked_views(self.current@));
        let mut mutations: Vec<&TableMutation> = Vec::new();
        for i in 0..self.current.len()
            invariant
                events == events_of(tracked_views(self.current@)),
                mutations@.len() == i,
                forall|j: int| 0 <= j < i ==> (#[trigger] mutations@[j])@ == events[j],
        {
            assert(events[i as int] == self.current@[i as int]@.mutation);
            mutations.push(self.current[i].mutation());
        }
        assert(borrowed_views(mutations@) =~= events);
        let budget: usize = recovery_byte_budget(self.config, &self.current);
        match plan_partial_update_recovery(schema, &mutations, budget) {
            Err(error) => Err(error),
            Ok(request) => {
                proof {
                    assert(index_views(request@.columns).len() == request@.columns.len());
                    if request@.columns.len() == 0 {
                        assert(index_views(request@.columns).to_set() =~= Set::empty());
                    } else {
                        assert(index_views(request@.columns).to_set().contains(
                            index_views(request@.columns)[0],
                        ));
                    }
                }
                if request.is_empty() {
                    Ok(ChunkStep::Prepare)
                } else {
                    Ok(ChunkStep::Recover(request))
                }
            },
        }
    }

    /// Takes in how many identities a recovery covered: the events from the
    /// first uncovered one are left to the next batch.
    pub fn recovered(&mut self, request: &PartialUpdateRecoveryRequest, covered_keys: usize)
        ensures
            final(self)@ == narrowed(
                old(self)@,
                covered_count(old(self)@.current.len(), request@.keys, covered_keys as nat),
            ),
    {
        let ghost before = self@;
        let ghost held = self.pending@;
        let ghost all = self.current@;
        let count: usize = covered_mutation_count(self.current.len(), request, covered_keys);
        assert(before.current.len() == all.len());
        if count < self.current.len() {
            let remainder = self.current.split_off(count);
            self.pending.push(remainder);
            proof {
                assert(self@.current =~= before.current.take(count as int));
                assert(tracked_views(remainder@) =~= before.current.skip(count as int));
                let chunks = chunk_views(self.pending@);
                assert(chunks =~= chunk_views(held).push(tracked_views(remainder@)));
                assert(self@.chunks =~= seq![before.current.skip(count as int)] + before.chunks);
            }
        }
    }

    /// Prepares the batch of the current chunk. Without events there is none.
    pub fn prepare(
        &mut self,
        schema: &ReplicatedTableSchema,
        table_name: &DuckLakeTableName,
        replay_epoch: &str,
        recovered: RecoveredPartialRows,
    ) -> (r: Result<Option<PreparedDuckLakeTableBatch>, EtlError>)
        requires
            recovered.wf(),
        ensures
            final(self)@ == without_current(old(self)@),
            match r {
                Ok(None) => old(self)@.current.len() == 0,
                Ok(Some(batch)) => old(self)@.current.len() > 0 && mutation_batch(
                    schema@,
                    table_name@,
                    replay_epoch@,
                    old(self)@.current,
                    recovered@,
                ) == Ok::<BatchView, ErrorView>(batch@),
                Err(error) => old(self)@.current.len() > 0 && mutation_batch(
                    schema@,
                    table_name@,
                    replay_epoch@,
                    old(self)@.current,
                    recovered@,
                ) == Err::<BatchView, ErrorView>(error@),
            },
    {
        let mut chunk: Vec<TrackedTableMutation> = Vec::new();
        core::mem::swap(&mut chunk, &mut self.current);
        assert(self@.current =~= Seq::empty());
        assert(tracked_views(chunk@).len() == chunk@.len());
        let mut batches: Vec<PreparedDuckLakeTableBatch> = Vec::new();
        match push_prepared_mutation_batch(
            &mut batches,
            schema,
            table_name,
            replay_epoch,
            chunk,
            recovered,
        ) {
            Err(error) => Err(error),
            Ok(()) => {
                proof {
                    assert(batch_views(batches@).len() == batches@.len());
                    if batches@.len() > 0 {
                        assert(batch_views(batches@).last() == batches@.last()@);
                    }
                }
                Ok(batches.pop())
            },
        }
    }
}

proof fn lemma_concatenated_first(first: Seq<TrackedView>, rest: Seq<Seq<TrackedView>>)
    ensures
        concatenated(seq![first] + rest) == first + concatenated(rest),
    decreases rest.len(),
{
    let all = seq![first] + rest;
    if rest.len() == 0 {
        assert(all.drop_last() =~= Seq::empty());
        assert(concatenated(all.drop_last()) == Seq::<TrackedView>::empty());
        assert(concatenated(rest) == Seq::<TrackedView>::empty());
        assert(all.last() == first);
        assert(concatenated(all) =~= first + concatenated(rest));
    } else {
        lemma_concatenated_first(first, rest.drop_last());
        assert(all.drop_last() =~= seq![first] + rest.drop_last());
        assert(all.last() == rest.last());
        assert(concatenated(all) =~= first + concatenated(rest));
    }
}

/// No event of a backlog is lost, repeated or moved: the run starts with all of
/// them, taking a chunk and narrowing it keep them in order, and preparing the
/// current chunk takes exactly its events from the front.
pub proof fn law_run_keeps_every_event_in_order(
    config: DuckLakeStreamingBatchConfig,
    backlog: Seq<TrackedView>,
    run: BacklogView,
    count: int,
)
    requires
        0 <= count,
    ensures
        remaining(
            BacklogView {
                config,
                current: Seq::empty(),
                chunks: split_chunks(config, backlog),
            },
        ) == backlog,
        run.current.len() == 0 && run.chunks.len() > 0 ==> remaining(at_next_chunk(run))
            == remaining(run),
        remaining(narrowed(run, count)) == remaining(run),
        remaining(run) == run.current + remaining(without_current(run)),
{
    law_split_keeps_order_and_caps(config, backlog);
    assert(Seq::<TrackedView>::empty() + backlog =~= backlog);
    if run.current.len() == 0 && run.chunks.len() > 0 {
        let first = run.chunks.first();
        let rest = run.chunks.drop_first();
        assert(run.chunks =~= seq![first] + rest);
        lemma_concatenated_first(first, rest);
        assert(remaining(at_next_chunk(run)) =~= remaining(run));
    }
    if count < run.current.len() {
        lemma_concatenated_first(run.current.skip(count), run.chunks);
        assert(remaining(narrowed(run, count)) =~= remaining(run));
    }
    assert(remaining(run) =~= run.current + remaining(without_current(run)));
}

/// One batch of a run: the events it was prepared from and what was recovered
/// for it.
pub struct RunBatch {
    pub events: Seq<MutationView>,
    pub recovered: RecoveredView,
}

/// The events of batches, one after the other.
pub open spec fn batch_events(batches: Seq<RunBatch>) -> Seq<MutationView>
    decreases batches.len(),
{
    if batches.len() == 0 {
        Seq::empty()
    } else {
        batch_events(batches.drop_last()) + batches.last().events
    }
}

/// The rows of a table once the statements of batches ran, in order.
pub open spec fn apply_batches(
    schema: SchemaView,
    table: Seq<Seq<CellView>>,
    batches: Seq<RunBatch>,
) -> Seq<Seq<CellView>>
    decreases batches.len(),
{
    if batches.len() == 0 {
        table
    } else {
        apply_ops(
            by_identity(schema),
            apply_batches(schema, table, batches.drop_last()),
            prepared_ops(schema, batches.last().events, batches.last().recovered)->Ok_0,
        )
    }
}

/// Whether a batch was prepared against a table: its statements could be
/// prepared, its partial rows fit, and what was recovered for it is what the
/// table stores at the identities its events touch.
pub open spec fn prepared_against(
    schema: SchemaView,
    table: Seq<Seq<CellView>>,
    batch: RunBatch,
) -> bool {
    &&& forall|i: int| 0 <= i < table.len() ==> (#[trigger] table[i]).len() == schema.columns.len()
    &&& prepared_ops(schema, batch.events, batch.recovered) is Ok
    &&& partial_rows_fit(schema, batch.events)
    &&& recovered_from(
        schema,
        table,
        batch.recovered,
        touched_identities(schema, batch.events),
    )
}

/// Whether each batch was prepared against the table that the earlier ones
/// left.
pub open spec fn prepared_in_turn(
    schema: SchemaView,
    table: Seq<Seq<CellView>>,
    batches: Seq<RunBatch>,
) -> bool {
    forall|k: int|
        0 <= k < batches.len() ==> prepared_against(
            schema,
            apply_batches(schema, table, batches.take(k)),
            #[trigger] batches[k],
        )
}

proof fn lemma_events_same(
    schema: SchemaView,
    left: Seq<Seq<CellView>>,
    right: Seq<Seq<CellView>>,
    events: Seq<MutationView>,
)
    requires
        same_items(left, right),
    ensures
        same_items(
            apply_events(schema, by_identity(schema), left, events),
            apply_events(schema, by_identity(schema), right, events),
        ),
    decreases events.len(),
{
    if events.len() > 0 {
        lemma_events_same(schema, left, right, events.drop_last());
        lemma_event_same(
            schema,
            by_identity(schema),
            apply_events(schema, by_identity(schema), left, events.drop_last()),
            apply_events(schema, by_identity(schema), right, events.drop_last()),
            events.last(),
        );
    }
}

proof fn lemma_events_concat(
    schema: SchemaView,
    table: Seq<Seq<CellView>>,
    left: Seq<MutationView>,
    right: Seq<MutationView>,
)
    ensures
        apply_events(schema, by_identity(schema), table, left + right) == apply_events(
            schema,
            by_identity(schema),
            apply_events(schema, by_identity(schema), table, left),
            right,
        ),
    decreases right.len(),
{
    if right.len() == 0 {
        assert(left + right =~= left);
    } else {
        lemma_events_concat(schema, table, left, right.drop_last());
        assert((left + right).drop_last() =~= left + right.drop_last());
        assert((left + right).last() == right.last());
    }
}

/// Batches that are prepared and applied in turn leave a table with the rows
/// that all their events leave it with one by one, as a multiset, however the
/// backlog was cut into batches.
pub proof fn law_run_replays_the_backlog(
    schema: SchemaView,
    table: Seq<Seq<CellView>>,
    batches: Seq<RunBatch>,
)
    requires
        prepared_in_turn(schema, table, batches),
    ensures
        same_items(
            apply_batches(schema, table, batches),
            apply_events(schema, by_identity(schema), table, batch_events(batches)),
        ),
    decreases batches.len(),
{
    if batches.len() > 0 {
        let earlier = batches.drop_last();
        let last = batches.last();
        let before = apply_batches(schema, table, earlier);
        assert forall|k: int| 0 <= k < earlier.len() implies prepared_against(
            schema,
            apply_batches(schema, table, earlier.take(k)),
            #[trigger] earlier[k],
        ) by {
            assert(earlier[k] == batches[k]);
            assert(earlier.take(k) =~= batches.take(k));
        }
        law_run_replays_the_backlog(schema, table, earlier);
        assert(batches.take(batches.len() - 1) =~= earlier);
        assert(prepared_against(schema, before, batches[batches.len() - 1]));
        if canonical_identity(schema) {
            law_normalized_statements_replay_events(schema, before, last.recovered, last.events);
        } else {
            law_ordered_statements_replay_events(
                schema,
                by_identity(schema),
                before,
                last.events,
            );
        }
        lemma_events_same(
            schema,
            before,
            apply_events(schema, by_identity(schema), table, batch_events(earlier)),
            last.events,
        );
        lemma_events_concat(schema, table, batch_events(earlier), last.events);
    }
}

/// Narrowing keeps the front of the current chunk, as many mutations as asked for where it
/// has so many, and puts the rest in front of the chunks behind it.
pub proof fn law_narrowing_keeps_the_front(run: BacklogView, count: int)
    requires
        0 <= count,
    ensures
        narrowed(run, count).current == run.current.take(
            if count < run.current.len() {
                count
            } else {
                run.current.len() as int
            },
        ),
        count < run.current.len() ==> {
            &&& narrowed(run, count).chunks.len() == run.chunks.len() + 1
            &&& narrowed(run, count).chunks[0] == run.current.skip(count)
            &&& narrowed(run, count).chunks.skip(1) == run.chunks
        },
        count >= run.current.len() ==> narrowed(run, count).chunks == run.chunks,
        narrowed(run, count).config == run.config,
{
    if count < run.current.len() {
        assert(narrowed(run, count).chunks.skip(1) =~= run.chunks);
    } else {
        assert(run.current.take(run.current.len() as int) =~= run.current);
    }
}

/// Stored values are read for a chunk exactly when the identity of the table is canonical
/// and some change leaves columns out as the first one at its identity.
pub proof fn law_chunks_are_recovered_for_first_gaps(
    name: Seq<char>,
    columns: Seq<ColumnSchema>,
    mutations: Seq<TableMutation>,
)
    requires
        planned(
            SchemaView { name, columns: column_views(columns) },
            mutation_views(mutations),
        ) is Ok,
    ensures
        ({
            let schema = SchemaView { name, columns: column_views(columns) };
            let events = mutation_views(mutations);
            needs_recovery(schema, events) <==> canonical_identity(schema) && exists|
                i: int,
                predicate: Seq<char>,
            |
                0 <= i < mutations.len() && columns_left_out(mutations[i]).len() > 0
                    && #[trigger] first_at(schema, events, i, predicate)
        }),
{
    let schema = SchemaView { name, columns: column_views(columns) };
    let events = mutation_views(mutations);
    let plan = planned(schema, events)->Ok_0;
    law_plan_requests_first_seen_identities(schema, events);
    assert forall|i: int| 0 <= i < mutations.len() implies event_gaps(#[trigger] events[i])
        == index_views(columns_left_out(mutations[i])) by {
        law_plan_reads_mutations_as_they_are(schema, mutations[i]);
    }
    if plan.keys.len() > 0 {
        let key = plan.keys[0];
        assert(is_requested(plan.keys, key.predicate));
        let i = choose|i: int|
            first_at(schema, events, i, key.predicate) && event_gaps(
                #[trigger] events[i],
            ).len() > 0;
        assert(columns_left_out(mutations[i]).len() > 0);
        assert(first_at(schema, events, i, key.predicate));
        assert(first_at(schema, events, key.mutation_index, key.predicate));
        assert(key.mutation_index == i) by {
            assert(touches(schema, events[i], key.predicate));
            assert(touches(schema, events[key.mutation_index], key.predicate));
        }
        assert(event_gaps(events[key.mutation_index]).contains(event_gaps(events[i])[0]));
        assert(plan.columns.contains(event_gaps(events[i])[0]));
    }
    if exists|i: int, predicate: Seq<char>|
        0 <= i < mutations.len() && columns_left_out(mutations[i]).len() > 0
            && #[trigger] first_at(schema, events, i, predicate) {
        let (i, predicate) = choose|i: int, predicate: Seq<char>|
            0 <= i < mutations.len() && columns_left_out(mutations[i]).len() > 0
                && #[trigger] first_at(schema, events, i, predicate);
        assert(event_gaps(events[i]).len() > 0);
        assert(is_requested(plan.keys, predicate));
        let k = choose|k: int|
            0 <= k < plan.keys.len() && (#[trigger] plan.keys[k]).predicate == predicate;
        assert(plan.keys.len() > 0);
    }
}

} // verus!
