//! Prepared atomic table batches and their identities.

use vstd::prelude::*;

use crate::backlog::{
    events_of, law_tracked_mutation_holds_both, mutation_of, position_of, tracked_views,
    TrackedTableMutation, TrackedTruncateEvent, TrackedView,
};
use crate::batch_kind::DuckLakeTableBatchKind;
use crate::data::{
    at_most_machine, capped_sum, cell_bytes, law_row_size_counts_every_value, row_size, row_views,
    CellView, OldRowView, OldTableRow, TableRow, UpdatedRowView, UpdatedTableRow,
};
use crate::error::{detailed_error, plain_error, ErrorKind, ErrorView, EtlError};
use crate::external::hex_number;
use crate::fingerprint::{
    hash_partial_table_row_ref, hash_table_row_ref, law_number_bytes_read_back,
    law_option_byte_is_its_residue, lemma_mixed_concat, low_bytes, mixed_all, number_of,
    option_byte, partial_row_bytes, text_bytes, BatchIdHasher, OFFSET_BASIS,
};
use crate::identity::{delete_predicate_from_row, row_predicate, DeletePredicateRowRef};
use crate::literal::{prepare_copy_rows, prepared_rows_count, payload_rows, row_literal, PreparedRows, PreparedRowsView};
use crate::mutation::{
    mutation_views, prepared_views, MutationView, PreparedTableMutation, PreparedView, TableMutation,
};
use crate::normalize::{prepare_table_mutations, prepared_ops, rendered_all};
use crate::partial_update::{RecoveredPartialRows, RecoveredView};
use crate::reading::law_hex_reads_back;
use crate::schema::{
    column_views, table_id, ColumnSchema, ColumnView, DuckLakeTableName, ReplicatedTableSchema, SchemaView,
    TableNameView,
};
use crate::sequence::{position, EventSequenceKey, PgLsn};
use crate::text::{decimal, decimal_u64, fixed_hex, hex, hex_span, lower_ascii, lowered, texts};

verus! {

/// Deterministic identity of one table batch.
pub struct DuckLakeBatchIdentity {
    pub batch_id: String,
    pub first_start_lsn: Option<PgLsn>,
    pub last_commit_lsn: Option<PgLsn>,
}

/// A log position as a number, zero where there is none.
pub open spec fn lsn_or_zero(lsn: Option<PgLsn>) -> nat {
    match lsn {
        None => 0,
        Some(lsn) => lsn.0 as nat,
    }
}

/// The persisted identity of a batch: its kind, its log positions and the
/// fingerprint of its contents.
pub open spec fn batch_id_text(
    kind: DuckLakeTableBatchKind,
    first_start_lsn: Option<PgLsn>,
    last_commit_lsn: Option<PgLsn>,
    fingerprint: u64,
) -> Seq<char> {
    kind.label() + ":"@ + hex(lsn_or_zero(first_start_lsn), 16) + ":"@ + hex(
        lsn_or_zero(last_commit_lsn),
        16,
    ) + ":"@ + hex(fingerprint as nat, 16)
}

/// Builds the persisted identity of a batch.
pub fn build_batch_identity(
    batch_kind: DuckLakeTableBatchKind,
    first_start_lsn: Option<PgLsn>,
    last_commit_lsn: Option<PgLsn>,
    fingerprint: u64,
) -> (r: DuckLakeBatchIdentity)
    ensures
        r.batch_id@ == batch_id_text(batch_kind, first_start_lsn, last_commit_lsn, fingerprint),
        r.first_start_lsn == first_start_lsn,
        r.last_commit_lsn == last_commit_lsn,
{
    let first: u64 = match first_start_lsn {
        None => 0,
        Some(lsn) => lsn.0,
    };
    let last: u64 = match last_commit_lsn {
        None => 0,
        Some(lsn) => lsn.0,
    };
    let mut batch_id = batch_kind.as_str().to_owned();
    batch_id.append(":");
    batch_id.append(fixed_hex(first as u128, 16).as_str());
    batch_id.append(":");
    batch_id.append(fixed_hex(last as u128, 16).as_str());
    batch_id.append(":");
    batch_id.append(fixed_hex(fingerprint as u128, 16).as_str());
    DuckLakeBatchIdentity { batch_id, first_start_lsn, last_commit_lsn }
}

/// The bytes one mutation contributes to a fingerprint.
pub open spec fn event_bytes(schema: SchemaView, event: MutationView) -> Result<
    Seq<u8>,
    ErrorView,
> {
    match event {
        MutationView::Insert(row) => Ok(text_bytes("insert"@) + text_bytes(row_literal(row))),
        MutationView::Delete(old_row) => match row_predicate(schema, old_row) {
            Err(error) => Err(error),
            Ok(predicate) => Ok(text_bytes("delete"@) + text_bytes(predicate)),
        },
        MutationView::Update { delete_row, new_row } => match row_predicate(schema, delete_row) {
            Err(error) => Err(error),
            Ok(predicate) => match new_row {
                UpdatedRowView::Full(row) => Ok(
                    text_bytes("update"@) + text_bytes(predicate) + text_bytes(row_literal(row)),
                ),
                UpdatedRowView::Partial(partial) => match partial_row_bytes(partial) {
                    Err(error) => Err(error),
                    Ok(bytes) => Ok(text_bytes("update"@) + text_bytes(predicate) + bytes),
                },
            },
        },
        MutationView::Replace(row) => match row_predicate(schema, OldRowView::Full(row)) {
            Err(error) => Err(error),
            Ok(predicate) => Ok(
                text_bytes("replace"@) + text_bytes(predicate) + text_bytes(row_literal(row)),
            ),
        },
    }
}

/// The bytes of a source position.
pub open spec fn position_bytes(key: EventSequenceKey) -> Seq<u8> {
    low_bytes(key.commit_lsn.0 as nat, 8) + low_bytes(key.tx_ordinal as nat, 8)
}

/// The bytes of mutations with their positions, in order, or the first error.
pub open spec fn backlog_bytes(schema: SchemaView, backlog: Seq<TrackedView>) -> Result<
    Seq<u8>,
    ErrorView,
>
    decreases backlog.len(),
{
    if backlog.len() == 0 {
        Ok(Seq::empty())
    } else {
        match backlog_bytes(schema, backlog.drop_last()) {
            Err(error) => Err(error),
            Ok(bytes) => match event_bytes(schema, backlog.last().mutation) {
                Err(error) => Err(error),
                Ok(event) => Ok(bytes + position_bytes(backlog.last().sequence_key) + event),
            },
        }
    }
}

/// The bytes every fingerprint of a table starts with.
pub open spec fn lead_bytes(kind: DuckLakeTableBatchKind, table: TableNameView) -> Seq<u8> {
    text_bytes(kind.label()) + text_bytes(table_id(table))
}

/// The commit position of the last mutation.
pub open spec fn last_commit(backlog: Seq<TrackedView>) -> Option<PgLsn> {
    if backlog.len() == 0 {
        None
    } else {
        Some(backlog.last().sequence_key.commit_lsn)
    }
}

/// The identity of an ordered mutation batch.
pub open spec fn mutation_batch_id(
    schema: SchemaView,
    table: TableNameView,
    backlog: Seq<TrackedView>,
) -> Result<Seq<char>, ErrorView> {
    match backlog_bytes(schema, backlog) {
        Err(error) => Err(error),
        Ok(bytes) => Ok(
            batch_id_text(
                DuckLakeTableBatchKind::Mutation,
                None,
                last_commit(backlog),
                mixed_all(
                    OFFSET_BASIS,
                    lead_bytes(DuckLakeTableBatchKind::Mutation, table) + bytes,
                ),
            ),
        ),
    }
}

fn hash_mutation(
    hasher: &mut BatchIdHasher,
    schema: &ReplicatedTableSchema,
    mutation: &TableMutation,
) -> (r: Result<(), EtlError>)
    ensures
        match r {
            Ok(_) => event_bytes(schema@, mutation@) is Ok && final(hasher).state() == mixed_all(
                old(hasher).state(),
                event_bytes(schema@, mutation@)->Ok_0,
            ),
            Err(error) => event_bytes(schema@, mutation@) == Err::<Seq<u8>, ErrorView>(error@),
        },
{
    let ghost start = hasher.state();
    match mutation {
        TableMutation::Insert(row) => {
            hasher.write_text("insert");
            hash_table_row_ref(hasher, row);
            proof {
                lemma_mixed_concat(start, text_bytes("insert"@), text_bytes(row_literal(row@)));
            }
        },
        TableMutation::Delete(old_row) => {
            hasher.write_text("delete");
            let predicate = match delete_predicate_from_row(
                schema,
                DeletePredicateRowRef::from_old(old_row),
            ) {
                Ok(predicate) => predicate,
                Err(error) => return Err(error),
            };
            hasher.write_text(predicate.as_str());
            proof {
                lemma_mixed_concat(start, text_bytes("delete"@), text_bytes(predicate@));
            }
        },
        TableMutation::Update { delete_row, new_row } => {
            hasher.write_text("update");
            let predicate = match delete_predicate_from_row(
                schema,
                DeletePredicateRowRef::from_old(delete_row),
            ) {
                Ok(predicate) => predicate,
                Err(error) => return Err(error),
            };
            hasher.write_text(predicate.as_str());
            let ghost lead = text_bytes("update"@) + text_bytes(predicate@);
            proof {
                lemma_mixed_concat(start, text_bytes("update"@), text_bytes(predicate@));
            }
            match new_row {
                UpdatedTableRow::Full(row) => {
                    hash_table_row_ref(hasher, row);
                    proof {
                        lemma_mixed_concat(start, lead, text_bytes(row_literal(row@)));
                    }
                },
                UpdatedTableRow::Partial(partial) => {
                    match hash_partial_table_row_ref(hasher, partial) {
                        Ok(_) => {},
                        Err(error) => return Err(error),
                    }
                    proof {
                        lemma_mixed_concat(start, lead, partial_row_bytes(partial@)->Ok_0);
                    }
                },
            }
        },
        TableMutation::Replace(row) => {
            hasher.write_text("replace");
            let predicate = match delete_predicate_from_row(
                schema,
                DeletePredicateRowRef::Full(row),
            ) {
                Ok(predicate) => predicate,
                Err(error) => return Err(error),
            };
            hasher.write_text(predicate.as_str());
            hash_table_row_ref(hasher, row);
            proof {
                let lead = text_bytes("replace"@) + text_bytes(predicate@);
                lemma_mixed_concat(start, text_bytes("replace"@), text_bytes(predicate@));
                lemma_mixed_concat(start, lead, text_bytes(row_literal(row@)));
            }
        },
    }
    Ok(())
}

fn hash_lead(kind: DuckLakeTableBatchKind, table_name: &DuckLakeTableName) -> (r: BatchIdHasher)
    ensures
        r.state() == mixed_all(OFFSET_BASIS, lead_bytes(kind, table_name@)),
{
    let mut hasher = BatchIdHasher::new();
    hasher.write_text(kind.as_str());
    hasher.write_text(table_name.id().as_str());
    proof {
        lemma_mixed_concat(
            OFFSET_BASIS,
            text_bytes(kind.label()),
            text_bytes(table_id(table_name@)),
        );
    }
    hasher
}

fn hash_position(hasher: &mut BatchIdHasher, key: EventSequenceKey)
    ensures
        final(hasher).state() == mixed_all(old(hasher).state(), position_bytes(key)),
{
    let ghost start = hasher.state();
    hasher.write_u64(key.commit_lsn.0);
    hasher.write_u64(key.tx_ordinal);
    proof {
        lemma_mixed_concat(
            start,
            low_bytes(key.commit_lsn.0 as nat, 8),
            low_bytes(key.tx_ordinal as nat, 8),
        );
    }
}

proof fn lemma_backlog_bytes_fail(schema: SchemaView, backlog: Seq<TrackedView>, shorter: int)
    requires
        0 <= shorter <= backlog.len(),
        backlog_bytes(schema, backlog.take(shorter)) is Err,
    ensures
        backlog_bytes(schema, backlog) == backlog_bytes(schema, backlog.take(shorter)),
    decreases backlog.len(),
{
    if shorter == backlog.len() {
        assert(backlog.take(shorter) =~= backlog);
    } else {
        assert(backlog.drop_last().take(shorter) =~= backlog.take(shorter));
        lemma_backlog_bytes_fail(schema, backlog.drop_last(), shorter);
    }
}

/// Builds the deterministic identity of an ordered mutation batch.
pub fn build_mutation_batch_identity(
    table_name: &DuckLakeTableName,
    schema: &ReplicatedTableSchema,
    tracked_mutations: &Vec<TrackedTableMutation>,
) -> (r: Result<DuckLakeBatchIdentity, EtlError>)
    ensures
        match r {
            Ok(identity) => {
                &&& mutation_batch_id(schema@, table_name@, tracked_views(tracked_mutations@))
                    == Ok::<Seq<char>, ErrorView>(identity.batch_id@)
                &&& identity.first_start_lsn is None
                &&& identity.last_commit_lsn == last_commit(tracked_views(tracked_mutations@))
            },
            Err(error) => mutation_batch_id(
                schema@,
                table_name@,
                tracked_views(tracked_mutations@),
            ) == Err::<Seq<char>, ErrorView>(error@),
        },
{
    let ghost backlog = tracked_views(tracked_mutations@);
    let ghost lead = lead_bytes(DuckLakeTableBatchKind::Mutation, table_name@);
    let mut hasher = hash_lead(DuckLakeTableBatchKind::Mutation, table_name);
    proof {
        assert(backlog.take(0) =~= Seq::empty());
        assert(lead + Seq::<u8>::empty() =~= lead);
    }
    for i in 0..tracked_mutations.len()
        invariant
            backlog == tracked_views(tracked_mutations@),
            backlog_bytes(schema@, backlog.take(i as int)) is Ok,
            hasher.state() == mixed_all(
                OFFSET_BASIS,
                lead + backlog_bytes(schema@, backlog.take(i as int))->Ok_0,
            ),
    {
        let entry = &tracked_mutations[i];
        let ghost longer = backlog.take(i + 1);
        let ghost bytes = backlog_bytes(schema@, backlog.take(i as int))->Ok_0;
        proof {
            assert(longer.drop_last() =~= backlog.take(i as int));
            assert(longer.last() == entry@);
        }
        hash_position(&mut hasher, entry.sequence_key());
        match hash_mutation(&mut hasher, schema, entry.mutation()) {
            Ok(_) => {},
            Err(error) => {
                proof {
                    lemma_backlog_bytes_fail(schema@, backlog, i + 1);
                }
                return Err(error);
            },
        }
        proof {
            let position = position_bytes(entry@.sequence_key);
            let event = event_bytes(schema@, entry@.mutation)->Ok_0;
            lemma_mixed_concat(OFFSET_BASIS, lead + bytes, position);
            lemma_mixed_concat(OFFSET_BASIS, lead + bytes + position, event);
            assert(lead + (bytes + position + event) =~= lead + bytes + position + event);
        }
    }
    assert(backlog.take(backlog.len() as int) =~= backlog);
    let last = if tracked_mutations.len() > 0 {
        let entry = &tracked_mutations[tracked_mutations.len() - 1];
        assert(backlog.last() == entry@);
        Some(entry.sequence_key().commit_lsn)
    } else {
        None
    };
    Ok(build_batch_identity(DuckLakeTableBatchKind::Mutation, None, last, hasher.finish()))
}

/// The identity shared by retries of a copy barrier.
pub open spec fn copy_complete_batch_id(table: TableNameView) -> Seq<char> {
    batch_id_text(
        DuckLakeTableBatchKind::CopyComplete,
        None,
        None,
        mixed_all(OFFSET_BASIS, lead_bytes(DuckLakeTableBatchKind::CopyComplete, table)),
    )
}

/// Builds the deterministic identity shared by retries of a copy barrier.
pub fn build_copy_complete_batch_identity(table_name: &DuckLakeTableName) -> (r:
    DuckLakeBatchIdentity)
    ensures
        r.batch_id@ == copy_complete_batch_id(table_name@),
        r.first_start_lsn is None,
        r.last_commit_lsn is None,
{
    let hasher = hash_lead(DuckLakeTableBatchKind::CopyComplete, table_name);
    build_batch_identity(DuckLakeTableBatchKind::CopyComplete, None, None, hasher.finish())
}

/// The bytes of truncates, in order.
pub open spec fn truncate_bytes(truncates: Seq<TrackedTruncateEvent>) -> Seq<u8>
    decreases truncates.len(),
{
    if truncates.len() == 0 {
        Seq::empty()
    } else {
        truncate_bytes(truncates.drop_last()) + position_bytes(truncates.last().sequence_key)
            + seq![option_byte(truncates.last().options)]
    }
}

/// The commit position of the last truncate.
pub open spec fn last_truncate_commit(truncates: Seq<TrackedTruncateEvent>) -> Option<PgLsn> {
    if truncates.len() == 0 {
        None
    } else {
        Some(truncates.last().sequence_key.commit_lsn)
    }
}

/// The identity of an ordered truncate batch.
pub open spec fn truncate_batch_id(
    table: TableNameView,
    truncates: Seq<TrackedTruncateEvent>,
) -> Seq<char> {
    batch_id_text(
        DuckLakeTableBatchKind::Truncate,
        None,
        last_truncate_commit(truncates),
        mixed_all(
            OFFSET_BASIS,
            lead_bytes(DuckLakeTableBatchKind::Truncate, table) + truncate_bytes(truncates),
        ),
    )
}

/// Builds the deterministic identity of an ordered truncate batch.
pub fn build_truncate_batch_identity(
    table_name: &DuckLakeTableName,
    tracked_truncates: &Vec<TrackedTruncateEvent>,
) -> (r: DuckLakeBatchIdentity)
    ensures
        r.batch_id@ == truncate_batch_id(table_name@, tracked_truncates@),
        r.first_start_lsn is None,
        r.last_commit_lsn == last_truncate_commit(tracked_truncates@),
{
    let ghost all = tracked_truncates@;
    let ghost lead = lead_bytes(DuckLakeTableBatchKind::Truncate, table_name@);
    let mut hasher = hash_lead(DuckLakeTableBatchKind::Truncate, table_name);
    proof {
        assert(all.take(0) =~= Seq::empty());
        assert(lead + truncate_bytes(all.take(0)) =~= lead);
    }
    for i in 0..tracked_truncates.len()
        invariant
            all == tracked_truncates@,
            hasher.state() == mixed_all(
                OFFSET_BASIS,
                lead + truncate_bytes(all.take(i as int)),
            ),
    {
        let entry = tracked_truncates[i];
        let ghost bytes = truncate_bytes(all.take(i as int));
        hash_position(&mut hasher, entry.sequence_key);
        hasher.write_options(entry.options);
        proof {
            assert(all.take(i + 1).drop_last() =~= all.take(i as int));
            let position = position_bytes(entry.sequence_key);
            let options = seq![option_byte(entry.options)];
            lemma_mixed_concat(OFFSET_BASIS, lead + bytes, position);
            lemma_mixed_concat(OFFSET_BASIS, lead + bytes + position, options);
            assert(lead + (bytes + position + options) =~= lead + bytes + position + options);
        }
    }
    assert(all.take(all.len() as int) =~= all);
    let last = if tracked_truncates.len() > 0 {
        Some(tracked_truncates[tracked_truncates.len() - 1].sequence_key.commit_lsn)
    } else {
        None
    };
    build_batch_identity(DuckLakeTableBatchKind::Truncate, None, last, hasher.finish())
}

/// The work of one batch.
#[derive(Debug, PartialEq)]
pub enum PreparedDuckLakeTableBatchAction {
    Mutation(Vec<PreparedTableMutation>),
    Truncate,
}

/// Contents of a batch's work.
pub enum ActionView {
    Mutation(Seq<PreparedView>),
    Truncate,
}

impl View for PreparedDuckLakeTableBatchAction {
    type V = ActionView;

    open spec fn view(&self) -> ActionView {
        match *self {
            PreparedDuckLakeTableBatchAction::Mutation(prepared) => ActionView::Mutation(
                prepared_views(prepared@),
            ),
            PreparedDuckLakeTableBatchAction::Truncate => ActionView::Truncate,
        }
    }
}

/// Prepared atomic table batch with replay metadata.
#[derive(Debug, PartialEq)]
pub struct PreparedDuckLakeTableBatch {
    pub table_name: DuckLakeTableName,
    pub replay_epoch: String,
    pub batch_id: String,
    pub batch_kind: DuckLakeTableBatchKind,
    pub first_start_lsn: Option<PgLsn>,
    pub last_commit_lsn: Option<PgLsn>,
    pub first_sequence_key: Option<EventSequenceKey>,
    pub last_sequence_key: Option<EventSequenceKey>,
    pub insert_column_names: Vec<String>,
    pub action: PreparedDuckLakeTableBatchAction,
}

/// Contents of a [`PreparedDuckLakeTableBatch`].
pub struct BatchView {
    pub table: TableNameView,
    pub replay_epoch: Seq<char>,
    pub batch_id: Seq<char>,
    pub batch_kind: DuckLakeTableBatchKind,
    pub first_start_lsn: Option<PgLsn>,
    pub last_commit_lsn: Option<PgLsn>,
    pub first_sequence_key: Option<EventSequenceKey>,
    pub last_sequence_key: Option<EventSequenceKey>,
    pub insert_column_names: Seq<Seq<char>>,
    pub action: ActionView,
}

impl View for PreparedDuckLakeTableBatch {
    type V = BatchView;

    open spec fn view(&self) -> BatchView {
        BatchView {
            table: self.table_name@,
            replay_epoch: self.replay_epoch@,
            batch_id: self.batch_id@,
            batch_kind: self.batch_kind,
            first_start_lsn: self.first_start_lsn,
            last_commit_lsn: self.last_commit_lsn,
            first_sequence_key: self.first_sequence_key,
            last_sequence_key: self.last_sequence_key,
            insert_column_names: texts(self.insert_column_names@),
            action: self.action@,
        }
    }
}

/// Contents of a list of batches.
pub open spec fn batch_views(batches: Seq<PreparedDuckLakeTableBatch>) -> Seq<BatchView> {
    batches.map_values(|b: PreparedDuckLakeTableBatch| b@)
}

/// Whether replay of batches of a kind goes by the streaming watermark.
pub open spec fn is_streaming(kind: DuckLakeTableBatchKind) -> bool {
    kind is Mutation || kind is Truncate
}

impl PreparedDuckLakeTableBatch {
    /// Returns the destination table of the batch.
    pub fn table_name(&self) -> (r: &DuckLakeTableName)
        ensures
            r@ == self@.table,
    {
        &self.table_name
    }

    /// Returns whether replay of the batch goes by the streaming watermark.
    pub fn uses_streaming_progress(&self) -> (r: bool)
        ensures
            r == is_streaming(self@.batch_kind),
    {
        match self.batch_kind {
            DuckLakeTableBatchKind::Mutation | DuckLakeTableBatchKind::Truncate => true,
            _ => false,
        }
    }
}

/// The lake names of the replicated columns, in write order.
pub open spec fn lake_column_names(schema: SchemaView) -> Seq<Seq<char>> {
    schema.columns.map_values(|c: ColumnView| lowered(c.name))
}

/// Returns the lake names of the replicated columns, in write order.
pub fn replicated_column_names(schema: &ReplicatedTableSchema) -> (r: Vec<String>)
    ensures
        texts(r@) == lake_column_names(schema@),
{
    let columns = schema.column_schemas();
    let mut names: Vec<String> = Vec::new();
    let ghost views = schema@.columns;
    for i in 0..columns.len()
        invariant
            views == column_views(columns@),
            names@.len() == i,
            forall|j: int| 0 <= j < i ==> (#[trigger] names@[j])@ == lowered(views[j].name),
    {
        assert(views[i as int] == columns@[i as int]@);
        names.push(lower_ascii(columns[i].name.as_str()));
    }
    assert(texts(names@) =~= lake_column_names(schema@));
    names
}

/// The prepared batch of ordered mutations.
pub open spec fn mutation_batch(
    schema: SchemaView,
    table: TableNameView,
    replay_epoch: Seq<char>,
    backlog: Seq<TrackedView>,
    recovered: RecoveredView,
) -> Result<BatchView, ErrorView> {
    match mutation_batch_id(schema, table, backlog) {
        Err(error) => Err(error),
        Ok(batch_id) => match prepared_ops(schema, events_of(backlog), recovered) {
            Err(error) => Err(error),
            Ok(ops) => Ok(
                BatchView {
                    table,
                    replay_epoch,
                    batch_id,
                    batch_kind: DuckLakeTableBatchKind::Mutation,
                    first_start_lsn: None,
                    last_commit_lsn: last_commit(backlog),
                    first_sequence_key: Some(backlog.first().sequence_key),
                    last_sequence_key: Some(backlog.last().sequence_key),
                    insert_column_names: lake_column_names(schema),
                    action: ActionView::Mutation(rendered_all(schema, ops)),
                },
            ),
        },
    }
}

fn take_mutations(tracked_mutations: Vec<TrackedTableMutation>) -> (r: Vec<TableMutation>)
    ensures
        mutation_views(r@) == events_of(tracked_views(tracked_mutations@)),
{
    let mut mutations: Vec<TableMutation> = Vec::new();
    let ghost events = events_of(tracked_views(tracked_mutations@));
    for entry in iter: tracked_mutations
        invariant
            iter.seq() == tracked_mutations@,
            events == events_of(tracked_views(tracked_mutations@)),
            mutations@.len() == iter.index(),
            forall|j: int| 0 <= j < iter.index() ==> (#[trigger] mutations@[j])@ == events[j],
    {
        assert(events[iter.index()] == tracked_mutations@[iter.index()]@.mutation);
        mutations.push(entry.into_mutation());
    }
    assert(mutation_views(mutations@) =~= events);
    mutations
}

/// Prepares one atomic batch from ordered mutations and appends it. Without
/// mutations there is no batch.
pub fn push_prepared_mutation_batch(
    prepared_batches: &mut Vec<PreparedDuckLakeTableBatch>,
    schema: &ReplicatedTableSchema,
    table_name: &DuckLakeTableName,
    replay_epoch: &str,
    tracked_mutations: Vec<TrackedTableMutation>,
    recovered: RecoveredPartialRows,
) -> (r: Result<(), EtlError>)
    requires
        recovered.wf(),
    ensures
        tracked_mutations@.len() == 0 ==> r is Ok && final(prepared_batches)@ == old(
            prepared_batches,
        )@,
        tracked_mutations@.len() > 0 ==> match r {
            Ok(_) => mutation_batch(
                schema@,
                table_name@,
                replay_epoch@,
                tracked_views(tracked_mutations@),
                recovered@,
            ) is Ok && batch_views(final(prepared_batches)@) == batch_views(
                old(prepared_batches)@,
            ).push(
                mutation_batch(
                    schema@,
                    table_name@,
                    replay_epoch@,
                    tracked_views(tracked_mutations@),
                    recovered@,
                )->Ok_0,
            ),
            Err(error) => final(prepared_batches)@ == old(prepared_batches)@ && mutation_batch(
                schema@,
                table_name@,
                replay_epoch@,
                tracked_views(tracked_mutations@),
                recovered@,
            ) == Err::<BatchView, ErrorView>(error@),
        },
{
    if tracked_mutations.len() == 0 {
        return Ok(());
    }
    let ghost backlog = tracked_views(tracked_mutations@);
    let identity = match build_mutation_batch_identity(table_name, schema, &tracked_mutations) {
        Ok(identity) => identity,
        Err(error) => return Err(error),
    };
    let first = tracked_mutations[0].sequence_key();
    let last = tracked_mutations[tracked_mutations.len() - 1].sequence_key();
    proof {
        assert(backlog.first() == tracked_mutations@[0]@);
        assert(backlog.last() == tracked_mutations@.last()@);
    }
    let mutations = take_mutations(tracked_mutations);
    let prepared = match prepare_table_mutations(schema, mutations, recovered) {
        Ok(prepared) => prepared,
        Err(error) => return Err(error),
    };
    let ghost held = prepared_batches@;
    let batch = PreparedDuckLakeTableBatch {
        table_name: table_name.clone(),
        replay_epoch: replay_epoch.to_owned(),
        batch_id: identity.batch_id,
        batch_kind: DuckLakeTableBatchKind::Mutation,
        first_start_lsn: identity.first_start_lsn,
        last_commit_lsn: identity.last_commit_lsn,
        first_sequence_key: Some(first),
        last_sequence_key: Some(last),
        insert_column_names: replicated_column_names(schema),
        action: PreparedDuckLakeTableBatchAction::Mutation(prepared),
    };
    prepared_batches.push(batch);
    assert(batch_views(prepared_batches@) =~= batch_views(held).push(batch@));
    Ok(())
}

/// Prepared rows of the initial copy, with a size estimate for buffering.
#[derive(Debug, PartialEq)]
pub struct PreparedDuckLakeCopyBatch {
    pub batch: PreparedDuckLakeTableBatch,
    pub estimated_bytes: u64,
}

/// The decoded bytes of rows, capped at the largest machine size.
pub open spec fn rows_size(rows: Seq<Seq<CellView>>) -> nat
    decreases rows.len(),
{
    if rows.len() == 0 {
        0
    } else {
        capped_sum(rows_size(rows.drop_last()), row_size(rows.last()))
    }
}

/// The prepared batch of copied rows.
pub open spec fn copy_batch(
    schema: SchemaView,
    table: TableNameView,
    replay_epoch: Seq<char>,
    batch_id: Seq<char>,
    rows: Seq<Seq<CellView>>,
) -> BatchView {
    BatchView {
        table,
        replay_epoch,
        batch_id,
        batch_kind: DuckLakeTableBatchKind::Copy,
        first_start_lsn: None,
        last_commit_lsn: None,
        first_sequence_key: None,
        last_sequence_key: None,
        insert_column_names: lake_column_names(schema),
        action: ActionView::Mutation(
            seq![PreparedView::Upsert(PreparedRowsView::ArrowRecordBatch(rows))],
        ),
    }
}

/// Prepares one retry-safe atomic batch of copied rows.
pub fn prepare_copy_table_batch(
    schema: &ReplicatedTableSchema,
    table_name: DuckLakeTableName,
    replay_epoch: String,
    batch_id: String,
    table_rows: Vec<TableRow>,
) -> (r: PreparedDuckLakeCopyBatch)
    ensures
        r.batch@ == copy_batch(
            schema@,
            table_name@,
            replay_epoch@,
            batch_id@,
            row_views(table_rows@),
        ),
        r.estimated_bytes == rows_size(row_views(table_rows@)),
{
    let ghost rows = row_views(table_rows@);
    let mut estimated: usize = 0;
    assert(rows.take(0) =~= Seq::empty());
    for i in 0..table_rows.len()
        invariant
            rows == row_views(table_rows@),
            estimated == rows_size(rows.take(i as int)),
    {
        estimated = estimated.saturating_add(table_rows[i].size_hint());
        assert(rows.take(i + 1).drop_last() =~= rows.take(i as int));
        assert(rows.take(i + 1).last() == table_rows@[i as int]@);
    }
    assert(rows.take(rows.len() as int) =~= rows);
    let mut prepared: Vec<PreparedTableMutation> = Vec::new();
    prepared.push(PreparedTableMutation::Upsert(prepare_copy_rows(table_rows)));
    assert(prepared_views(prepared@) =~= seq![
        PreparedView::Upsert(PreparedRowsView::ArrowRecordBatch(rows)),
    ]);
    PreparedDuckLakeCopyBatch {
        batch: PreparedDuckLakeTableBatch {
            table_name,
            replay_epoch,
            batch_id,
            batch_kind: DuckLakeTableBatchKind::Copy,
            first_start_lsn: None,
            last_commit_lsn: None,
            first_sequence_key: None,
            last_sequence_key: None,
            insert_column_names: replicated_column_names(schema),
            action: PreparedDuckLakeTableBatchAction::Mutation(prepared),
        },
        estimated_bytes: estimated as u64,
    }
}

/// The durable marker of a finished copy.
pub open spec fn copy_complete_batch(table: TableNameView, replay_epoch: Seq<char>) -> BatchView {
    BatchView {
        table,
        replay_epoch,
        batch_id: copy_complete_batch_id(table),
        batch_kind: DuckLakeTableBatchKind::CopyComplete,
        first_start_lsn: None,
        last_commit_lsn: None,
        first_sequence_key: None,
        last_sequence_key: None,
        insert_column_names: Seq::empty(),
        action: ActionView::Mutation(Seq::empty()),
    }
}

/// Prepares the durable marker written after every copy worker finishes.
pub fn prepare_copy_complete_table_batch(
    table_name: DuckLakeTableName,
    replay_epoch: String,
) -> (r: PreparedDuckLakeTableBatch)
    ensures
        r@ == copy_complete_batch(table_name@, replay_epoch@),
{
    let identity = build_copy_complete_batch_identity(&table_name);
    let r = PreparedDuckLakeTableBatch {
        table_name,
        replay_epoch,
        batch_id: identity.batch_id,
        batch_kind: DuckLakeTableBatchKind::CopyComplete,
        first_start_lsn: None,
        last_commit_lsn: None,
        first_sequence_key: None,
        last_sequence_key: None,
        insert_column_names: Vec::new(),
        action: PreparedDuckLakeTableBatchAction::Mutation(Vec::new()),
    };
    proof {
        assert(r@.insert_column_names =~= Seq::empty());
        assert(prepared_views(Seq::empty()) =~= Seq::empty());
    }
    r
}

/// The prepared batch of ordered truncates.
pub open spec fn truncate_batch(
    table: TableNameView,
    replay_epoch: Seq<char>,
    truncates: Seq<TrackedTruncateEvent>,
) -> BatchView {
    BatchView {
        table,
        replay_epoch,
        batch_id: truncate_batch_id(table, truncates),
        batch_kind: DuckLakeTableBatchKind::Truncate,
        first_start_lsn: None,
        last_commit_lsn: last_truncate_commit(truncates),
        first_sequence_key: if truncates.len() == 0 {
            None
        } else {
            Some(truncates.first().sequence_key)
        },
        last_sequence_key: if truncates.len() == 0 {
            None
        } else {
            Some(truncates.last().sequence_key)
        },
        insert_column_names: Seq::empty(),
        action: ActionView::Truncate,
    }
}

/// Prepares the atomic batch of one table's truncates.
pub fn prepare_truncate_table_batch(
    table_name: DuckLakeTableName,
    replay_epoch: String,
    tracked_truncates: Vec<TrackedTruncateEvent>,
) -> (r: PreparedDuckLakeTableBatch)
    ensures
        r@ == truncate_batch(table_name@, replay_epoch@, tracked_truncates@),
{
    let identity = build_truncate_batch_identity(&table_name, &tracked_truncates);
    let count: usize = tracked_truncates.len();
    let first = if count > 0 {
        Some(tracked_truncates[0].sequence_key)
    } else {
        None
    };
    let last = if count > 0 {
        Some(tracked_truncates[count - 1].sequence_key)
    } else {
        None
    };
    let r = PreparedDuckLakeTableBatch {
        table_name,
        replay_epoch,
        batch_id: identity.batch_id,
        batch_kind: DuckLakeTableBatchKind::Truncate,
        first_start_lsn: identity.first_start_lsn,
        last_commit_lsn: identity.last_commit_lsn,
        first_sequence_key: first,
        last_sequence_key: last,
        insert_column_names: Vec::new(),
        action: PreparedDuckLakeTableBatchAction::Truncate,
    };
    assert(r@.insert_column_names =~= Seq::empty());
    r
}

/// Durable marker kept while copied rows remain staged.
#[derive(Clone, Copy, Debug, PartialEq, Eq, Structural)]
pub struct PreparedDuckLakeBatchMarker {
    pub batch_kind: DuckLakeTableBatchKind,
    pub first_start_lsn: Option<PgLsn>,
    pub last_commit_lsn: Option<PgLsn>,
}

/// The marker of a batch.
pub open spec fn marker_of(batch: BatchView) -> PreparedDuckLakeBatchMarker {
    PreparedDuckLakeBatchMarker {
        batch_kind: batch.batch_kind,
        first_start_lsn: batch.first_start_lsn,
        last_commit_lsn: batch.last_commit_lsn,
    }
}

/// The rows of a buffered copy batch: the one upsert it must consist of.
pub open spec fn buffered_rows(batch: BatchView) -> Result<PreparedRowsView, ErrorView> {
    match batch.action {
        ActionView::Truncate => Err(
            plain_error(
                ErrorKind::InvalidState,
                "DuckLake buffered copy batch is not a mutation"@,
            ),
        ),
        ActionView::Mutation(prepared) => if prepared.len() != 1 {
            Err(
                detailed_error(
                    ErrorKind::InvalidState,
                    "DuckLake buffered copy batch has an invalid mutation count"@,
                    "Expected 1 mutation, got "@ + decimal(prepared.len()),
                ),
            )
        } else {
            match prepared[0] {
                PreparedView::Upsert(rows) => Ok(rows),
                _ => Err(
                    plain_error(
                        ErrorKind::InvalidState,
                        "DuckLake buffered copy mutation is not an upsert"@,
                    ),
                ),
            }
        },
    }
}

impl PreparedDuckLakeCopyBatch {
    /// Returns the approximate decoded bytes of the rows.
    pub fn estimated_bytes(&self) -> (r: u64)
        ensures
            r == self.estimated_bytes,
    {
        self.estimated_bytes
    }

    /// Takes the batch for the unbuffered path.
    pub fn into_atomic_batch(self) -> (r: PreparedDuckLakeTableBatch)
        ensures
            r == self.batch,
    {
        self.batch
    }

    /// Separates the rows from their durable marker.
    pub fn into_buffer_parts(self) -> (r: Result<
        (String, PreparedDuckLakeBatchMarker, PreparedRows),
        EtlError,
    >)
        ensures
            match r {
                Ok((batch_id, marker, rows)) => {
                    &&& buffered_rows(self.batch@) == Ok::<PreparedRowsView, ErrorView>(rows@)
                    &&& batch_id@ == self.batch@.batch_id
                    &&& marker == marker_of(self.batch@)
                },
                Err(error) => buffered_rows(self.batch@) == Err::<PreparedRowsView, ErrorView>(
                    error@,
                ),
            },
    {
        let batch = self.batch;
        let mut prepared = match batch.action {
            PreparedDuckLakeTableBatchAction::Mutation(prepared) => prepared,
            PreparedDuckLakeTableBatchAction::Truncate => return Err(
                EtlError::new(
                    ErrorKind::InvalidState,
                    "DuckLake buffered copy batch is not a mutation",
                ),
            ),
        };
        assert(prepared_views(prepared@).len() == prepared@.len());
        if prepared.len() != 1 {
            let mut detail = "Expected 1 mutation, got ".to_owned();
            detail.append(decimal_u64(prepared.len() as u64).as_str());
            return Err(
                EtlError::with_detail(
                    ErrorKind::InvalidState,
                    "DuckLake buffered copy batch has an invalid mutation count",
                    detail,
                ),
            );
        }
        assert(prepared_views(prepared@)[0] == prepared@[0]@);
        match prepared.pop() {
            Some(PreparedTableMutation::Upsert(rows)) => Ok(
                (
                    batch.batch_id,
                    PreparedDuckLakeBatchMarker {
                        batch_kind: batch.batch_kind,
                        first_start_lsn: batch.first_start_lsn,
                        last_commit_lsn: batch.last_commit_lsn,
                    },
                    rows,
                ),
            ),
            _ => Err(
                EtlError::new(
                    ErrorKind::InvalidState,
                    "DuckLake buffered copy mutation is not an upsert",
                ),
            ),
        }
    }
}

/// Returns the number of prepared statements in a batch.
pub fn prepared_mutation_count(batch: &PreparedDuckLakeTableBatch) -> (r: usize)
    ensures
        r == (match batch@.action {
            ActionView::Truncate => 1nat,
            ActionView::Mutation(prepared) => prepared.len(),
        }),
{
    match &batch.action {
        PreparedDuckLakeTableBatchAction::Truncate => 1,
        PreparedDuckLakeTableBatchAction::Mutation(prepared) => prepared.len(),
    }
}

/// The rows of a batch that is a single insert.
pub open spec fn sub_batch_rows(action: ActionView) -> Option<nat> {
    match action {
        ActionView::Truncate => None,
        ActionView::Mutation(prepared) => if prepared.len() != 1 {
            None
        } else {
            match prepared[0] {
                PreparedView::Upsert(rows) => Some(payload_rows(rows)),
                _ => None,
            }
        },
    }
}

/// Returns the rows of a batch that is a single insert.
pub fn apply_sub_batch_rows(batch: &PreparedDuckLakeTableBatch) -> (r: Option<usize>)
    ensures
        match r {
            Some(count) => sub_batch_rows(batch@.action) == Some(count as nat),
            None => sub_batch_rows(batch@.action) is None,
        },
{
    match &batch.action {
        PreparedDuckLakeTableBatchAction::Truncate => None,
        PreparedDuckLakeTableBatchAction::Mutation(prepared) => {
            if prepared.len() != 1 {
                return None;
            }
            assert(prepared_views(prepared@)[0] == prepared@[0]@);
            match &prepared[0] {
                PreparedTableMutation::Upsert(rows) => Some(prepared_rows_count(rows)),
                _ => None,
            }
        },
    }
}

/// The log label of a batch.
pub open spec fn log_kind(action: ActionView) -> Seq<char> {
    match action {
        ActionView::Truncate => "truncate"@,
        ActionView::Mutation(prepared) => {
            if prepared.len() == 1 && prepared[0] is Upsert {
                "insert"@
            } else if (prepared.len() == 1 && prepared[0] is Delete) || (prepared.len() == 2
                && prepared[0] is Delete && prepared[1] is Upsert) {
                prepared[0]->origin.label()
            } else if prepared.len() == 1 {
                "update"@
            } else {
                "mutation"@
            }
        },
    }
}

/// Classifies a batch for logging.
pub fn batch_log_kind(batch: &PreparedDuckLakeTableBatch) -> (r: &'static str)
    ensures
        r@ == log_kind(batch@.action),
{
    match &batch.action {
        PreparedDuckLakeTableBatchAction::Truncate => "truncate",
        PreparedDuckLakeTableBatchAction::Mutation(prepared) => {
            let ghost views = prepared_views(prepared@);
            if prepared.len() == 1 {
                assert(views[0] == prepared@[0]@);
                match &prepared[0] {
                    PreparedTableMutation::Upsert(_) => "insert",
                    PreparedTableMutation::Delete { origin, .. } => origin.as_str(),
                    PreparedTableMutation::Update { .. } => "update",
                }
            } else if prepared.len() == 2 {
                assert(views[0] == prepared@[0]@);
                assert(views[1] == prepared@[1]@);
                match (&prepared[0], &prepared[1]) {
                    (
                        PreparedTableMutation::Delete { origin, .. },
                        PreparedTableMutation::Upsert(_),
                    ) => origin.as_str(),
                    _ => "mutation",
                }
            } else {
                "mutation"
            }
        },
    }
}

/// A batch id reads back as what it was made of: the label of its kind and, behind
/// colons, its two log positions, with zero for none, and its fingerprint. Ids that
/// differ in any of them differ.
pub proof fn law_batch_id_reads_back(
    kind: DuckLakeTableBatchKind,
    first_start_lsn: Option<PgLsn>,
    last_commit_lsn: Option<PgLsn>,
    fingerprint: u64,
)
    ensures
        ({
            let id = batch_id_text(kind, first_start_lsn, last_commit_lsn, fingerprint);
            let lead = kind.label().len() as int;
            &&& id.len() == lead + 51
            &&& id.take(lead) == kind.label()
            &&& id[lead] == ':' && id[lead + 17] == ':' && id[lead + 34] == ':'
            &&& hex_number(id.subrange(lead + 1, lead + 17)) == Some(
                match first_start_lsn {
                    Some(lsn) => lsn.0 as nat,
                    None => 0,
                },
            )
            &&& hex_number(id.subrange(lead + 18, lead + 34)) == Some(
                match last_commit_lsn {
                    Some(lsn) => lsn.0 as nat,
                    None => 0,
                },
            )
            &&& hex_number(id.subrange(lead + 35, lead + 51)) == Some(fingerprint as nat)
        }),
{
    let id = batch_id_text(kind, first_start_lsn, last_commit_lsn, fingerprint);
    let lead = kind.label().len() as int;
    let first = lsn_or_zero(first_start_lsn);
    let last = lsn_or_zero(last_commit_lsn);
    reveal_strlit(":");
    assert(hex_span(16) == 0x1_0000_0000_0000_0000) by {
        reveal_with_fuel(hex_span, 17);
    }
    law_hex_reads_back(first, 16);
    law_hex_reads_back(last, 16);
    law_hex_reads_back(fingerprint as nat, 16);
    assert(id.take(lead) =~= kind.label());
    assert(id.subrange(lead + 1, lead + 17) =~= hex(first, 16));
    assert(id.subrange(lead + 18, lead + 34) =~= hex(last, 16));
    assert(id.subrange(lead + 35, lead + 51) =~= hex(fingerprint as nat, 16));
}

/// The bytes of a position read back as its commit position and its ordinal.
pub proof fn law_position_bytes_read_back(key: EventSequenceKey)
    ensures
        position_bytes(key).len() == 16,
        number_of(position_bytes(key).take(8)) == key.commit_lsn.0,
        number_of(position_bytes(key).skip(8)) == key.tx_ordinal,
{
    law_number_bytes_read_back(key.commit_lsn.0);
    law_number_bytes_read_back(key.tx_ordinal);
    assert(position_bytes(key).take(8) =~= low_bytes(key.commit_lsn.0 as nat, 8));
    assert(position_bytes(key).skip(8) =~= low_bytes(key.tx_ordinal as nat, 8));
}

/// The bytes of a mutation name what it does, the identity it removes and the image it
/// writes, one after the other; an insert removes none and a delete writes none.
pub proof fn law_event_bytes_name_the_event(schema: SchemaView, mutation: TableMutation)
    ensures
        mutation matches TableMutation::Insert(row) ==> event_bytes(schema, mutation@) == Ok::<
            Seq<u8>,
            ErrorView,
        >(text_bytes("insert"@) + text_bytes(row_literal(row@))),
        mutation matches TableMutation::Delete(row) ==> match row_predicate(schema, row@) {
            Ok(predicate) => event_bytes(schema, mutation@) == Ok::<Seq<u8>, ErrorView>(
                text_bytes("delete"@) + text_bytes(predicate),
            ),
            Err(error) => event_bytes(schema, mutation@) == Err::<Seq<u8>, ErrorView>(error),
        },
        mutation matches TableMutation::Replace(row) ==> match row_predicate(
            schema,
            OldTableRow::Full(row)@,
        ) {
            Ok(predicate) => event_bytes(schema, mutation@) == Ok::<Seq<u8>, ErrorView>(
                text_bytes("replace"@) + text_bytes(predicate) + text_bytes(row_literal(row@)),
            ),
            Err(error) => event_bytes(schema, mutation@) == Err::<Seq<u8>, ErrorView>(error),
        },
        mutation matches TableMutation::Update { delete_row, new_row } ==> match row_predicate(
            schema,
            delete_row@,
        ) {
            Ok(predicate) => match new_row {
                UpdatedTableRow::Full(row) => event_bytes(schema, mutation@) == Ok::<
                    Seq<u8>,
                    ErrorView,
                >(text_bytes("update"@) + text_bytes(predicate) + text_bytes(row_literal(row@))),
                UpdatedTableRow::Partial(partial) => match partial_row_bytes(partial@) {
                    Ok(bytes) => event_bytes(schema, mutation@) == Ok::<Seq<u8>, ErrorView>(
                        text_bytes("update"@) + text_bytes(predicate) + bytes,
                    ),
                    Err(error) => event_bytes(schema, mutation@) == Err::<Seq<u8>, ErrorView>(
                        error,
                    ),
                },
            },
            Err(error) => event_bytes(schema, mutation@) == Err::<Seq<u8>, ErrorView>(error),
        },
{
}

proof fn lemma_backlog_cut(schema: SchemaView, backlog: Seq<TrackedView>, index: int) -> (cut: (
    Seq<u8>,
    Seq<u8>,
))
    requires
        0 <= index < backlog.len(),
        backlog_bytes(schema, backlog) is Ok,
    ensures
        event_bytes(schema, backlog[index].mutation) is Ok,
        backlog_bytes(schema, backlog.take(index)) == Ok::<Seq<u8>, ErrorView>(cut.0),
        backlog_bytes(schema, backlog)->Ok_0 == cut.0 + position_bytes(
            backlog[index].sequence_key,
        ) + event_bytes(schema, backlog[index].mutation)->Ok_0 + cut.1,
    decreases backlog.len(),
{
    let shorter = backlog.drop_last();
    let all = backlog_bytes(schema, backlog)->Ok_0;
    if index == backlog.len() - 1 {
        let lead = backlog_bytes(schema, shorter)->Ok_0;
        assert(backlog.take(index) =~= shorter);
        assert(all =~= lead + position_bytes(backlog[index].sequence_key) + event_bytes(
            schema,
            backlog[index].mutation,
        )->Ok_0 + Seq::<u8>::empty());
        (lead, Seq::empty())
    } else {
        let cut = lemma_backlog_cut(schema, shorter, index);
        assert(shorter.take(index) =~= backlog.take(index));
        assert(shorter[index] == backlog[index]);
        let rest = cut.1 + position_bytes(backlog.last().sequence_key) + event_bytes(
            schema,
            backlog.last().mutation,
        )->Ok_0;
        assert(all =~= cut.0 + position_bytes(backlog[index].sequence_key) + event_bytes(
            schema,
            backlog[index].mutation,
        )->Ok_0 + rest);
        (cut.0, rest)
    }
}

/// The bytes of a backlog name every event of it, in order: behind the bytes of the
/// earlier events stand the position and the bytes of the event.
pub proof fn law_backlog_bytes_name_every_event(
    schema: SchemaView,
    backlog: Seq<TrackedView>,
    index: int,
)
    requires
        0 <= index < backlog.len(),
        backlog_bytes(schema, backlog) is Ok,
    ensures
        event_bytes(schema, backlog[index].mutation) is Ok,
        backlog_bytes(schema, backlog.take(index)) is Ok,
        exists|rest: Seq<u8>|
            backlog_bytes(schema, backlog)->Ok_0 == #[trigger] (backlog_bytes(
                schema,
                backlog.take(index),
            )->Ok_0 + position_bytes(backlog[index].sequence_key) + event_bytes(
                schema,
                backlog[index].mutation,
            )->Ok_0 + rest),
{
    let cut = lemma_backlog_cut(schema, backlog, index);
    let rest = cut.1;
    assert(backlog_bytes(schema, backlog)->Ok_0 == backlog_bytes(
        schema,
        backlog.take(index),
    )->Ok_0 + position_bytes(backlog[index].sequence_key) + event_bytes(
        schema,
        backlog[index].mutation,
    )->Ok_0 + rest);
}

/// Whether the lake names of a batch's columns are those of the table's, in order.
pub open spec fn names_columns(
    batch: PreparedDuckLakeTableBatch,
    columns: Seq<ColumnSchema>,
) -> bool {
    let names = batch.insert_column_names@;
    &&& names.len() == columns.len()
    &&& forall|k: int| 0 <= k < columns.len() ==> (#[trigger] names[k])@ == lowered(columns[k].name@)
}

proof fn lemma_names_columns(
    batch: PreparedDuckLakeTableBatch,
    name: Seq<char>,
    columns: Seq<ColumnSchema>,
)
    requires
        batch@.insert_column_names == lake_column_names(
            SchemaView { name, columns: column_views(columns) },
        ),
    ensures
        names_columns(batch, columns),
{
    let names = batch.insert_column_names@;
    let lake = lake_column_names(SchemaView { name, columns: column_views(columns) });
    assert(texts(names).len() == lake.len());
    assert forall|k: int| 0 <= k < columns.len() implies (#[trigger] names[k])@ == lowered(
        columns[k].name@,
    ) by {
        assert(texts(names)[k] == lake[k]);
    }
}

/// A mutation batch covers its backlog from the position of the first mutation to that
/// of the last one, commits with the commit of the last one, and writes the columns of
/// the table in order.
pub proof fn law_mutation_batch_covers_its_backlog(
    name: Seq<char>,
    columns: Seq<ColumnSchema>,
    table: DuckLakeTableName,
    replay_epoch: Seq<char>,
    backlog: Seq<TrackedTableMutation>,
    recovered: RecoveredView,
    batch: PreparedDuckLakeTableBatch,
)
    requires
        backlog.len() > 0,
        mutation_batch(
            SchemaView { name, columns: column_views(columns) },
            table@,
            replay_epoch,
            tracked_views(backlog),
            recovered,
        ) == Ok::<BatchView, ErrorView>(batch@),
    ensures
        batch.table_name.schema@ == table.schema@,
        batch.table_name.table@ == table.table@,
        batch.replay_epoch@ == replay_epoch,
        batch.batch_kind is Mutation,
        batch.first_start_lsn is None,
        batch.first_sequence_key matches Some(first) && position(first) == position_of(backlog[0]),
        batch.last_sequence_key matches Some(last) && position(last) == position_of(
            backlog.last(),
        ),
        batch.last_commit_lsn matches Some(commit) && commit.0 == position_of(backlog.last())
            / 0x1_0000_0000_0000_0000,
        names_columns(batch, columns),
        batch.action is Mutation,
{
    let views = tracked_views(backlog);
    assert(views.first() == backlog[0]@);
    assert(views.last() == backlog.last()@);
    law_tracked_mutation_holds_both(backlog[0]);
    law_tracked_mutation_holds_both(backlog.last());
    let key = views.last().sequence_key;
    assert((key.commit_lsn.0 * 0x1_0000_0000_0000_0000 + key.tx_ordinal)
        / 0x1_0000_0000_0000_0000 == key.commit_lsn.0);
    assert(table@ == batch.table_name@);
    lemma_names_columns(batch, name, columns);
}

/// A truncate batch covers its truncates from the position of the first to that of the
/// last one, and truncates.
pub proof fn law_truncate_batch_covers_its_truncates(
    table: DuckLakeTableName,
    replay_epoch: Seq<char>,
    truncates: Seq<TrackedTruncateEvent>,
    batch: PreparedDuckLakeTableBatch,
)
    requires
        truncates.len() > 0,
        batch@ == truncate_batch(table@, replay_epoch, truncates),
    ensures
        batch.table_name.schema@ == table.schema@,
        batch.table_name.table@ == table.table@,
        batch.replay_epoch@ == replay_epoch,
        batch.batch_kind is Truncate,
        batch.first_start_lsn is None,
        batch.first_sequence_key == Some(truncates[0].sequence_key),
        batch.last_sequence_key == Some(truncates[truncates.len() - 1].sequence_key),
        batch.last_commit_lsn == Some(truncates[truncates.len() - 1].sequence_key.commit_lsn),
        batch.insert_column_names@.len() == 0,
        batch.action is Truncate,
{
    assert(table@ == batch.table_name@);
    assert(texts(batch.insert_column_names@).len() == 0);
}

proof fn lemma_truncate_bytes(truncates: Seq<TrackedTruncateEvent>)
    ensures
        truncate_bytes(truncates).len() == 17 * truncates.len(),
        forall|i: int|
            0 <= i < truncates.len() ==> truncate_bytes(truncates).subrange(17 * i, 17 * i + 16)
                == position_bytes((#[trigger] truncates[i]).sequence_key) && truncate_bytes(
                truncates,
            )[17 * i + 16] as int == truncates[i].options as int % 256,
    decreases truncates.len(),
{
    if truncates.len() > 0 {
        let shorter = truncates.drop_last();
        let last = truncates.len() - 1;
        let bytes = truncate_bytes(truncates);
        let lead = truncate_bytes(shorter);
        lemma_truncate_bytes(shorter);
        law_position_bytes_read_back(truncates.last().sequence_key);
        law_option_byte_is_its_residue(truncates.last().options);
        assert forall|i: int| 0 <= i < truncates.len() implies bytes.subrange(17 * i, 17 * i + 16)
            == position_bytes((#[trigger] truncates[i]).sequence_key) && bytes[17 * i + 16] as int
            == truncates[i].options as int % 256 by {
            if i < last {
                assert(shorter[i] == truncates[i]);
                assert(bytes.subrange(17 * i, 17 * i + 16) =~= lead.subrange(17 * i, 17 * i + 16));
                assert(bytes[17 * i + 16] == lead[17 * i + 16]);
            } else {
                assert(bytes.subrange(17 * i, 17 * i + 16) =~= position_bytes(
                    truncates.last().sequence_key,
                ));
            }
        }
    }
}

/// The bytes of truncates name every one of them, in order, by its position and its
/// options.
pub proof fn law_truncate_bytes_name_every_truncate(
    truncates: Seq<TrackedTruncateEvent>,
    index: int,
)
    requires
        0 <= index < truncates.len(),
    ensures
        truncate_bytes(truncates).len() == 17 * truncates.len(),
        number_of(truncate_bytes(truncates).subrange(17 * index, 17 * index + 8))
            == truncates[index].sequence_key.commit_lsn.0,
        number_of(truncate_bytes(truncates).subrange(17 * index + 8, 17 * index + 16))
            == truncates[index].sequence_key.tx_ordinal,
        truncate_bytes(truncates)[17 * index + 16] as int == truncates[index].options as int % 256,
{
    let bytes = truncate_bytes(truncates);
    let own = bytes.subrange(17 * index, 17 * index + 16);
    lemma_truncate_bytes(truncates);
    law_position_bytes_read_back(truncates[index].sequence_key);
    assert(own.take(8) =~= bytes.subrange(17 * index, 17 * index + 8));
    assert(own.skip(8) =~= bytes.subrange(17 * index + 8, 17 * index + 16));
}

/// The bytes of every value of every row, without a cap.
pub open spec fn rows_bytes(rows: Seq<TableRow>) -> nat
    decreases rows.len(),
{
    if rows.len() == 0 {
        0
    } else {
        rows_bytes(rows.drop_last()) + cell_bytes(rows.last().values@)
    }
}

/// The size of rows counts every value of every row, up to the largest machine size.
pub proof fn law_rows_size_counts_every_value(rows: Seq<TableRow>)
    ensures
        rows_size(row_views(rows)) == at_most_machine(rows_bytes(rows)),
    decreases rows.len(),
{
    let views = row_views(rows);
    if rows.len() > 0 {
        law_rows_size_counts_every_value(rows.drop_last());
        assert(views.drop_last() =~= row_views(rows.drop_last()));
        assert(views.last() == rows.last()@);
        law_row_size_counts_every_value(rows.last());
    } else {
        assert(views.len() == 0);
    }
}

/// A copy batch appends the copied rows, all of them and in order, and has no position;
/// the batch that marks a finished copy writes nothing.
pub proof fn law_copy_batch_appends_the_copied_rows(
    name: Seq<char>,
    columns: Seq<ColumnSchema>,
    table: DuckLakeTableName,
    replay_epoch: Seq<char>,
    batch_id: Seq<char>,
    rows: Seq<TableRow>,
    batch: PreparedDuckLakeTableBatch,
    finished: PreparedDuckLakeTableBatch,
)
    requires
        batch@ == copy_batch(
            SchemaView { name, columns: column_views(columns) },
            table@,
            replay_epoch,
            batch_id,
            row_views(rows),
        ),
        finished@ == copy_complete_batch(table@, replay_epoch),
    ensures
        batch.table_name.schema@ == table.schema@,
        batch.table_name.table@ == table.table@,
        batch.replay_epoch@ == replay_epoch,
        batch.batch_id@ == batch_id,
        batch.batch_kind is Copy,
        batch.first_start_lsn is None && batch.last_commit_lsn is None,
        batch.first_sequence_key is None && batch.last_sequence_key is None,
        names_columns(batch, columns),
        batch.action@ matches ActionView::Mutation(prepared) && prepared.len() == 1 && (prepared[0]
            matches PreparedView::Upsert(PreparedRowsView::ArrowRecordBatch(copied))
            && copied.len() == rows.len() && forall|k: int|
            0 <= k < rows.len() ==> #[trigger] copied[k] == rows[k]@),
        finished.table_name.schema@ == table.schema@,
        finished.table_name.table@ == table.table@,
        finished.replay_epoch@ == replay_epoch,
        finished.batch_kind is CopyComplete,
        finished.first_sequence_key is None && finished.last_sequence_key is None,
        finished.action@ matches ActionView::Mutation(prepared) && prepared.len() == 0,
{
    assert(table@ == batch.table_name@);
    assert(table@ == finished.table_name@);
    lemma_names_columns(batch, name, columns);
}

/// What a batch is logged as: a truncate, a single insert, a delete by its origin,
/// with or without the insert behind it, a single update, and any other mutations.
pub proof fn law_batches_are_logged_by_what_they_do(batch: PreparedDuckLakeTableBatch)
    ensures
        batch.action is Truncate ==> log_kind(batch@.action) == "truncate"@ && sub_batch_rows(
            batch@.action,
        ) is None && buffered_rows(batch@) is Err,
        batch.action matches PreparedDuckLakeTableBatchAction::Mutation(prepared) ==> {
            let kind = log_kind(batch@.action);
            &&& prepared@.len() == 1 && (prepared@[0] matches PreparedTableMutation::Upsert(rows))
                ==> {
                &&& kind == "insert"@
                &&& buffered_rows(batch@) == Ok::<PreparedRowsView, ErrorView>(
                    prepared@[0]->Upsert_0@,
                )
                &&& sub_batch_rows(batch@.action) == Some(
                    match prepared@[0]->Upsert_0 {
                        PreparedRows::Appender(rows) => rows@.len(),
                        PreparedRows::ArrowRecordBatch(rows) => rows@.len(),
                        PreparedRows::SqlLiterals(rows) => rows@.len(),
                    },
                )
            }
            &&& prepared@.len() != 1 || !(prepared@[0] is Upsert) ==> buffered_rows(batch@) is Err
                && sub_batch_rows(batch@.action) is None
            &&& prepared@.len() == 1 && prepared@[0] is Update ==> kind == "update"@
            &&& prepared@.len() == 1 && prepared@[0] is Delete ==> kind
                == prepared@[0]->origin.label()
            &&& prepared@.len() == 2 && prepared@[0] is Delete && prepared@[1] is Upsert ==> kind
                == prepared@[0]->origin.label()
            &&& prepared@.len() == 2 && !(prepared@[0] is Delete && prepared@[1] is Upsert)
                ==> kind == "mutation"@
            &&& prepared@.len() == 0 || prepared@.len() > 2 ==> kind == "mutation"@
        },
        marker_of(batch@).batch_kind == batch.batch_kind,
        marker_of(batch@).first_start_lsn == batch.first_start_lsn,
        marker_of(batch@).last_commit_lsn == batch.last_commit_lsn,
        is_streaming(batch.batch_kind) == !batch.batch_kind.is_copy(),
{
    match batch.action {
        PreparedDuckLakeTableBatchAction::Truncate => {},
        PreparedDuckLakeTableBatchAction::Mutation(prepared) => {
            let views = prepared_views(prepared@);
            assert(views.len() == prepared@.len());
            if prepared@.len() > 0 {
                assert(views[0] == prepared@[0]@);
            }
            if prepared@.len() > 1 {
                assert(views[1] == prepared@[1]@);
            }
        },
    }
}

/// The identity of a mutation batch names its kind, the commit of its last mutation and
/// the fingerprint of the kind, the table and every event; that of truncates theirs; and
/// that of a finished copy the table alone.
pub proof fn law_batch_ids_fingerprint_what_they_name(
    schema: SchemaView,
    table: DuckLakeTableName,
    backlog: Seq<TrackedView>,
    truncates: Seq<TrackedTruncateEvent>,
)
    ensures
        ({
            let named = text_bytes(table.schema@ + "."@ + table.table@);
            &&& match backlog_bytes(schema, backlog) {
                Err(error) => mutation_batch_id(schema, table@, backlog) == Err::<
                    Seq<char>,
                    ErrorView,
                >(error),
                Ok(bytes) => mutation_batch_id(schema, table@, backlog) == Ok::<
                    Seq<char>,
                    ErrorView,
                >(
                    batch_id_text(
                        DuckLakeTableBatchKind::Mutation,
                        None,
                        if backlog.len() > 0 {
                            Some(backlog[backlog.len() - 1].sequence_key.commit_lsn)
                        } else {
                            None
                        },
                        mixed_all(
                            0xcbf29ce484222325u64,
                            text_bytes("mutation"@) + named + bytes,
                        ),
                    ),
                ),
            }
            &&& truncate_batch_id(table@, truncates) == batch_id_text(
                DuckLakeTableBatchKind::Truncate,
                None,
                if truncates.len() > 0 {
                    Some(truncates[truncates.len() - 1].sequence_key.commit_lsn)
                } else {
                    None
                },
                mixed_all(
                    0xcbf29ce484222325u64,
                    text_bytes("truncate"@) + named + truncate_bytes(truncates),
                ),
            )
            &&& copy_complete_batch_id(table@) == batch_id_text(
                DuckLakeTableBatchKind::CopyComplete,
                None,
                None,
                mixed_all(0xcbf29ce484222325u64, text_bytes("copy_complete"@) + named),
            )
        }),
{
}

/// There is a batch identity for a backlog exactly when every event of it has bytes.
pub proof fn law_backlog_bytes_need_every_event(schema: SchemaView, backlog: Seq<TrackedView>)
    ensures
        backlog_bytes(schema, backlog) is Ok <==> forall|i: int|
            0 <= i < backlog.len() ==> event_bytes(schema, (#[trigger] backlog[i]).mutation) is Ok,
        backlog.len() == 0 ==> backlog_bytes(schema, backlog) == Ok::<Seq<u8>, ErrorView>(
            Seq::empty(),
        ),
    decreases backlog.len(),
{
    if backlog.len() > 0 {
        let shorter = backlog.drop_last();
        let last = backlog.len() - 1;
        law_backlog_bytes_need_every_event(schema, shorter);
        let all = forall|i: int|
            0 <= i < backlog.len() ==> event_bytes(schema, (#[trigger] backlog[i]).mutation) is Ok;
        let fewer = forall|i: int|
            0 <= i < shorter.len() ==> event_bytes(schema, (#[trigger] shorter[i]).mutation) is Ok;
        assert(all == (fewer && event_bytes(schema, backlog[last].mutation) is Ok)) by {
            assert(forall|i: int| 0 <= i < last ==> (#[trigger] shorter[i]) == backlog[i]);
            assert(forall|i: int| 0 <= i < last ==> (#[trigger] backlog[i]) == shorter[i]);
        }
    }
}

/// A mutation batch is prepared from every mutation of its backlog, in order, and named by
/// the identity of the backlog. There is none where the backlog has no identity, or where
/// its mutations cannot be prepared.
pub proof fn law_mutation_batch_prepares_every_mutation(
    schema: SchemaView,
    table: DuckLakeTableName,
    replay_epoch: Seq<char>,
    backlog: Seq<TrackedTableMutation>,
    recovered: RecoveredView,
)
    ensures
        ({
            let views = tracked_views(backlog);
            let events = Seq::new(backlog.len(), |k: int| mutation_of(backlog[k])@);
            let id = mutation_batch_id(schema, table@, views);
            let ops = prepared_ops(schema, events, recovered);
            match mutation_batch(schema, table@, replay_epoch, views, recovered) {
                Ok(batch) => id == Ok::<Seq<char>, ErrorView>(batch.batch_id) && (ops matches Ok(ops)
                    && batch.action == ActionView::Mutation(rendered_all(schema, ops))),
                Err(error) => if id is Err {
                    id == Err::<Seq<char>, ErrorView>(error)
                } else {
                    ops matches Err(refused) && refused == error
                },
            }
        }),
{
    let views = tracked_views(backlog);
    let events = Seq::new(backlog.len(), |k: int| mutation_of(backlog[k])@);
    assert(events_of(views) =~= events) by {
        assert forall|k: int| 0 <= k < backlog.len() implies #[trigger] events_of(views)[k]
            == events[k] by {
            law_tracked_mutation_holds_both(backlog[k]);
            assert(views[k] == backlog[k]@);
        }
    }
}

} // verus!
