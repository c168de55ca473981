//! Buffered table copies: rows gather in a staging table and are committed
//! together with the markers that make their replay idempotent.

use vstd::prelude::*;

use crate::batches::{
    buffered_rows, marker_of, BatchView, PreparedDuckLakeBatchMarker, PreparedDuckLakeCopyBatch,
    PreparedDuckLakeTableBatch,
};
use crate::error::{clone_error, detailed_error, ErrorKind, ErrorView, EtlError};
use crate::hooks::{counted, record_staging_table_creation, DuckLakeTestHooks};
use crate::literal::{PreparedRows, PreparedRowsView};
use crate::schema::{table_id, DuckLakeTableName, TableNameView};
use crate::staging::{
    clear_staging_statement, create_staging_statement, fresh_staging, insert_staged_statement,
    staging_load, ReusableStagingTable, StagingLoad, StagingLoadView, StagingView,
};
use crate::statements::{
    build_marker_query, build_marker_statement, marker_query, marker_statement, plain_statement,
    statement_views, Statement, StatementView,
};
use crate::text::texts;
use crate::transaction::optional_error;

verus! {

/// A staged batch that awaits its durable marker.
#[derive(Debug, PartialEq)]
struct PendingMarker {
    batch_id: String,
    marker: PreparedDuckLakeBatchMarker,
}

/// A staged batch that awaits its durable marker.
pub struct PendingView {
    pub batch_id: Seq<char>,
    pub marker: PreparedDuckLakeBatchMarker,
}

/// Accumulator of one table copy in one replay epoch, bound to the connection
/// that holds its staging table.
#[derive(Debug, PartialEq)]
pub struct DuckLakeCopyAccumulator {
    table_name: DuckLakeTableName,
    replay_epoch: String,
    staging: ReusableStagingTable,
    pending_markers: Vec<PendingMarker>,
    staged_bytes: u64,
}

/// Contents of a [`DuckLakeCopyAccumulator`].
pub struct CopyView {
    pub table: TableNameView,
    pub replay_epoch: Seq<char>,
    pub staging: StagingView,
    pub pending: Seq<PendingView>,
    pub staged_bytes: u64,
}

spec fn pending_views(pending: Seq<PendingMarker>) -> Seq<PendingView> {
    pending.map_values(|p: PendingMarker| PendingView { batch_id: p.batch_id@, marker: p.marker })
}

impl View for DuckLakeCopyAccumulator {
    type V = CopyView;

    closed spec fn view(&self) -> CopyView {
        CopyView {
            table: self.table_name@,
            replay_epoch: self.replay_epoch@,
            staging: self.staging@,
            pending: pending_views(self.pending_markers@),
            staged_bytes: self.staged_bytes,
        }
    }
}

/// Whether a batch is staged and awaits its marker.
pub open spec fn is_pending(pending: Seq<PendingView>, batch_id: Seq<char>) -> bool {
    exists|i: int| 0 <= i < pending.len() && (#[trigger] pending[i]).batch_id == batch_id
}

/// Whether every staged batch is listed once.
pub open spec fn pending_once(pending: Seq<PendingView>) -> bool {
    forall|i: int, j: int|
        0 <= i < j < pending.len() ==> (#[trigger] pending[i]).batch_id != (
        #[trigger] pending[j]).batch_id
}

/// The empty accumulator shaped from a first batch.
pub open spec fn fresh_copy(batch: BatchView) -> CopyView {
    CopyView {
        table: batch.table,
        replay_epoch: batch.replay_epoch,
        staging: fresh_staging(batch.table, batch.insert_column_names),
        pending: Seq::empty(),
        staged_bytes: 0,
    }
}

/// Whether a batch belongs to the session of an accumulator.
pub open spec fn same_session(copy: CopyView, batch: BatchView) -> bool {
    &&& batch.table == copy.table
    &&& batch.replay_epoch == copy.replay_epoch
    &&& batch.insert_column_names == copy.staging.columns
}

/// The error of a batch that belongs to another session.
pub open spec fn session_error(copy: CopyView) -> ErrorView {
    detailed_error(
        ErrorKind::InvalidState,
        "DuckLake buffered copy batch does not match its staging session"@,
        "table="@ + table_id(copy.table),
    )
}

/// How appending a batch starts.
pub enum AppendStart {
    /// The batch is already staged: nothing is appended.
    Skip,
    /// The batch is appended unless this query finds its durable marker.
    CheckMarker(Statement),
}

/// Contents of an [`AppendStart`].
pub enum AppendStartView {
    Skip,
    CheckMarker(StatementView),
}

impl View for AppendStart {
    type V = AppendStartView;

    open spec fn view(&self) -> AppendStartView {
        match *self {
            AppendStart::Skip => AppendStartView::Skip,
            AppendStart::CheckMarker(query) => AppendStartView::CheckMarker(query@),
        }
    }
}

/// How appending a batch starts.
pub open spec fn append_start(copy: CopyView, batch: BatchView) -> Result<
    AppendStartView,
    ErrorView,
> {
    if !same_session(copy, batch) {
        Err(session_error(copy))
    } else if is_pending(copy.pending, batch.batch_id) {
        Ok(AppendStartView::Skip)
    } else {
        Ok(
            AppendStartView::CheckMarker(
                marker_query(batch.table, batch.replay_epoch, batch.batch_id),
            ),
        )
    }
}

/// A batch on its way into the staging table.
pub struct CopyStage {
    batch_id: String,
    marker: PreparedDuckLakeBatchMarker,
    estimated_bytes: u64,
    rows: PreparedRows,
    create: Option<Statement>,
    load: StagingLoad,
}

/// Contents of a [`CopyStage`].
pub struct StageView {
    pub batch_id: Seq<char>,
    pub marker: PreparedDuckLakeBatchMarker,
    pub estimated_bytes: u64,
    pub rows: PreparedRowsView,
    /// Creates the staging table, where it does not exist yet.
    pub create: Option<StatementView>,
    pub load: StagingLoadView,
}

/// Contents of an optional statement.
pub open spec fn optional_statement(statement: Option<Statement>) -> Option<StatementView> {
    match statement {
        None => None,
        Some(statement) => Some(statement@),
    }
}

impl View for CopyStage {
    type V = StageView;

    closed spec fn view(&self) -> StageView {
        StageView {
            batch_id: self.batch_id@,
            marker: self.marker,
            estimated_bytes: self.estimated_bytes,
            rows: self.rows@,
            create: optional_statement(self.create),
            load: self.load@,
        }
    }
}

impl CopyStage {
    /// Returns the statement that creates the staging table, where it does not
    /// exist yet.
    pub fn create(&self) -> (r: Option<&Statement>)
        ensures
            match r {
                None => self@.create is None,
                Some(statement) => self@.create == Some(statement@),
            },
    {
        match &self.create {
            None => None,
            Some(statement) => Some(statement),
        }
    }

    /// Returns how the rows reach the staging table.
    pub fn load(&self) -> (r: &StagingLoad)
        ensures
            r@ == self@.load,
    {
        &self.load
    }

    /// Returns the rows.
    pub fn rows(&self) -> (r: &PreparedRows)
        ensures
            r@ == self@.rows,
    {
        &self.rows
    }
}

/// What staging a batch takes once no durable marker was found for it.
pub open spec fn staging_of(copy: CopyView, batch: BatchView, estimated_bytes: u64) -> Result<
    StageView,
    ErrorView,
> {
    match buffered_rows(batch) {
        Err(error) => Err(error),
        Ok(rows) => Ok(
            StageView {
                batch_id: batch.batch_id,
                marker: marker_of(batch),
                estimated_bytes,
                rows,
                create: if copy.staging.created {
                    None
                } else {
                    Some(create_staging_statement(copy.staging))
                },
                load: staging_load(copy.staging, rows),
            },
        ),
    }
}

/// A byte count that stays at the largest one instead of overflowing.
pub open spec fn capped_bytes(left: u64, right: u64) -> u64 {
    if left + right > u64::MAX {
        u64::MAX
    } else {
        (left + right) as u64
    }
}

/// The accumulator once a batch is staged.
pub open spec fn with_staged(copy: CopyView, stage: StageView) -> CopyView {
    CopyView {
        staging: StagingView { created: true, ..copy.staging },
        pending: if is_pending(copy.pending, stage.batch_id) {
            copy.pending.map_values(
                |p: PendingView|
                    if p.batch_id == stage.batch_id {
                        PendingView { marker: stage.marker, ..p }
                    } else {
                        p
                    },
            )
        } else {
            copy.pending.push(PendingView { batch_id: stage.batch_id, marker: stage.marker })
        },
        staged_bytes: capped_bytes(copy.staged_bytes, stage.estimated_bytes),
        ..copy
    }
}

fn same_texts(left: &Vec<String>, right: &Vec<String>) -> (r: bool)
    ensures
        r == (texts(left@) == texts(right@)),
{
    let ghost left_texts = texts(left@);
    let ghost right_texts = texts(right@);
    if left.len() != right.len() {
        assert(left_texts.len() != right_texts.len());
        return false;
    }
    for i in 0..left.len()
        invariant
            left@.len() == right@.len(),
            left_texts == texts(left@),
            right_texts == texts(right@),
            forall|j: int| 0 <= j < i ==> left_texts[j] == right_texts[j],
    {
        if left[i] != right[i] {
            assert(left_texts[i as int] != right_texts[i as int]);
            return false;
        }
    }
    assert(left_texts =~= right_texts);
    true
}

fn clone_texts(names: &Vec<String>) -> (r: Vec<String>)
    ensures
        texts(r@) == texts(names@),
{
    let mut copies: Vec<String> = Vec::new();
    for i in 0..names.len()
        invariant
            copies@.len() == i,
            forall|j: int| 0 <= j < i ==> (#[trigger] copies@[j])@ == names@[j]@,
    {
        copies.push(names[i].clone());
    }
    assert(texts(copies@) =~= texts(names@));
    copies
}

impl DuckLakeCopyAccumulator {
    /// Every staged batch is listed once.
    pub open spec fn wf(&self) -> bool {
        pending_once(self@.pending)
    }

    /// Creates an empty accumulator shaped from its first batch.
    pub fn new(batch: &PreparedDuckLakeCopyBatch) -> (r: DuckLakeCopyAccumulator)
        ensures
            r.wf(),
            r@ == fresh_copy(batch.batch@),
    {
        let names = clone_texts(&batch.batch.insert_column_names);
        let staging = ReusableStagingTable::new(&batch.batch.table_name, names);
        let r = DuckLakeCopyAccumulator {
            table_name: batch.batch.table_name.clone(),
            replay_epoch: batch.batch.replay_epoch.clone(),
            staging,
            pending_markers: Vec::new(),
            staged_bytes: 0,
        };
        assert(r@.pending =~= Seq::empty());
        r
    }

    /// Returns the approximate decoded bytes that await a durable flush.
    pub fn staged_bytes(&self) -> (r: u64)
        ensures
            r == self@.staged_bytes,
    {
        self.staged_bytes
    }

    fn find_pending(&self, batch_id: &str) -> (r: Option<usize>)
        ensures
            match r {
                Some(i) => i < self@.pending.len() && self@.pending[i as int].batch_id == batch_id@,
                None => !is_pending(self@.pending, batch_id@),
            },
    {
        let target = batch_id.to_owned();
        for i in 0..self.pending_markers.len()
            invariant
                target@ == batch_id@,
                self@.pending.len() == self.pending_markers@.len(),
                forall|j: int|
                    0 <= j < i ==> (#[trigger] self@.pending[j]).batch_id != batch_id@,
        {
            assert(self@.pending[i as int].batch_id == self.pending_markers@[i as int].batch_id@);
            if self.pending_markers[i].batch_id == target {
                return Some(i);
            }
        }
        None
    }

    /// Starts appending a batch.
    pub fn begin_append(&self, batch: &PreparedDuckLakeCopyBatch) -> (r: Result<
        AppendStart,
        EtlError,
    >)
        ensures
            match r {
                Ok(start) => append_start(self@, batch.batch@) == Ok::<AppendStartView, ErrorView>(
                    start@,
                ),
                Err(error) => append_start(self@, batch.batch@) == Err::<
                    AppendStartView,
                    ErrorView,
                >(error@),
            },
    {
        let prepared = &batch.batch;
        let same_table = prepared.table_name.same_as(&self.table_name);
        let same_epoch = prepared.replay_epoch == self.replay_epoch;
        let same_columns = same_texts(
            &prepared.insert_column_names,
            &self.staging.insert_column_names,
        );
        if !same_table || !same_epoch || !same_columns {
            let mut detail = "table=".to_owned();
            detail.append(self.table_name.id().as_str());
            return Err(
                EtlError::with_detail(
                    ErrorKind::InvalidState,
                    "DuckLake buffered copy batch does not match its staging session",
                    detail,
                ),
            );
        }
        match self.find_pending(prepared.batch_id.as_str()) {
            Some(i) => {
                assert(self@.pending[i as int].batch_id == prepared@.batch_id);
                Ok(AppendStart::Skip)
            },
            None => Ok(
                AppendStart::CheckMarker(
                    build_marker_query(
                        &prepared.table_name,
                        prepared.replay_epoch.as_str(),
                        prepared.batch_id.as_str(),
                    ),
                ),
            ),
        }
    }

    /// Takes a batch apart for staging, once no durable marker was found for it.
    pub fn stage(&self, batch: PreparedDuckLakeCopyBatch) -> (r: Result<CopyStage, EtlError>)
        ensures
            match r {
                Ok(stage) => staging_of(self@, batch.batch@, batch.estimated_bytes) == Ok::<
                    StageView,
                    ErrorView,
                >(stage@),
                Err(error) => staging_of(self@, batch.batch@, batch.estimated_bytes) == Err::<
                    StageView,
                    ErrorView,
                >(error@),
            },
    {
        let estimated_bytes: u64 = batch.estimated_bytes;
        match batch.into_buffer_parts() {
            Err(error) => Err(error),
            Ok((batch_id, marker, rows)) => {
                let create = if self.staging.created {
                    None
                } else {
                    Some(self.staging.create_statement())
                };
                let load = self.staging.load_rows(&rows);
                Ok(CopyStage { batch_id, marker, estimated_bytes, rows, create, load })
            },
        }
    }

    /// Records that the staging table was created, and counts it.
    pub fn staging_created(&mut self, hooks: &mut DuckLakeTestHooks)
        requires
            old(self).wf(),
        ensures
            final(self).wf(),
            final(hooks)@ == counted(old(hooks)@, table_id(old(self)@.table)),
            final(self)@ == (CopyView {
                staging: StagingView { created: true, ..old(self)@.staging },
                ..old(self)@
            }),
    {
        record_staging_table_creation(hooks, &self.table_name);
        self.staging.created = true;
    }

    /// Records that a batch is in the staging table.
    pub fn staged(&mut self, stage: CopyStage)
        requires
            old(self).wf(),
        ensures
            final(self).wf(),
            final(self)@ == with_staged(old(self)@, stage@),
    {
        let ghost before = self@;
        self.staging.created = true;
        self.staged_bytes = self.staged_bytes.saturating_add(stage.estimated_bytes);
        match self.find_pending(stage.batch_id.as_str()) {
            Some(i) => {
                self.pending_markers[i] = PendingMarker {
                    batch_id: stage.batch_id,
                    marker: stage.marker,
                };
                proof {
                    assert(before.pending[i as int].batch_id == stage@.batch_id);
                    assert(is_pending(before.pending, stage@.batch_id));
                    assert(self@.pending =~= with_staged(before, stage@).pending);
                }
            },
            None => {
                self.pending_markers.push(
                    PendingMarker { batch_id: stage.batch_id, marker: stage.marker },
                );
                assert(self@.pending =~= with_staged(before, stage@).pending);
            },
        }
    }
}

/// The error of a completion marker that belongs to another session.
pub open spec fn completion_error(copy: CopyView) -> ErrorView {
    detailed_error(
        ErrorKind::InvalidState,
        "DuckLake copy-complete marker does not match its buffered session"@,
        "table="@ + table_id(copy.table),
    )
}

/// The statements that make the staged rows and their markers durable.
pub open spec fn flush_steps(copy: CopyView) -> Seq<StatementView> {
    if copy.pending.len() == 0 {
        Seq::empty()
    } else {
        seq![insert_staged_statement(copy.staging)] + copy.pending.map_values(
            |p: PendingView|
                marker_statement(copy.table, copy.replay_epoch, p.batch_id, p.marker),
        )
    }
}

/// How the completion of a table copy is recorded.
#[derive(Debug, PartialEq)]
enum Completion {
    /// The copy goes on.
    Absent,
    /// The completion belongs to another session.
    Foreign(EtlError),
    /// The marker is inserted unless the query finds it.
    Marker { query: Statement, insert: Statement },
}

/// How the completion of a table copy is recorded.
pub enum CompletionView {
    Absent,
    Foreign(ErrorView),
    Marker { query: StatementView, insert: StatementView },
}

impl View for Completion {
    type V = CompletionView;

    closed spec fn view(&self) -> CompletionView {
        match *self {
            Completion::Absent => CompletionView::Absent,
            Completion::Foreign(error) => CompletionView::Foreign(error@),
            Completion::Marker { query, insert } => CompletionView::Marker {
                query: query@,
                insert: insert@,
            },
        }
    }
}

/// How the completion of a table copy is recorded.
pub open spec fn completion_of(copy: CopyView, copy_complete: Option<BatchView>) -> CompletionView {
    match copy_complete {
        None => CompletionView::Absent,
        Some(batch) => if batch.table != copy.table || batch.replay_epoch != copy.replay_epoch {
            CompletionView::Foreign(completion_error(copy))
        } else {
            CompletionView::Marker {
                query: marker_query(batch.table, batch.replay_epoch, batch.batch_id),
                insert: marker_statement(
                    batch.table,
                    batch.replay_epoch,
                    batch.batch_id,
                    marker_of(batch),
                ),
            }
        },
    }
}

/// Where a flush stands.
#[derive(Clone, Copy, Debug, PartialEq, Eq, Structural)]
pub enum FlushPhase {
    /// The transaction is to be begun.
    Begin,
    /// That statement is to run.
    Step(usize),
    /// The completion marker is to be looked up.
    CheckCompletion,
    /// The completion marker is to be inserted.
    InsertCompletion,
    /// The transaction is to be committed.
    Commit,
    /// The transaction is committed: an armed failure is to be reported.
    Committed,
    /// The staging table is to be emptied.
    Clear,
    /// The transaction is to be rolled back.
    Rollback,
    /// Nothing is left to do.
    Done,
}

/// What the host does next for a flush.
pub enum FlushAction<'a> {
    /// Run the statement. A failed rollback is no failure of the flush.
    Run(&'a Statement),
    /// Run the query and report whether it found a row.
    Look(&'a Statement),
    /// Report a failure that was armed for copy commits.
    Hook,
    Done,
}

/// Contents of a [`FlushAction`].
pub enum FlushActionView {
    Run(StatementView),
    Look(StatementView),
    Hook,
    Done,
}

impl<'a> View for FlushAction<'a> {
    type V = FlushActionView;

    open spec fn view(&self) -> FlushActionView {
        match *self {
            FlushAction::Run(statement) => FlushActionView::Run(statement@),
            FlushAction::Look(query) => FlushActionView::Look(query@),
            FlushAction::Hook => FlushActionView::Hook,
            FlushAction::Done => FlushActionView::Done,
        }
    }
}

/// The durable flush of an accumulator, driven by the host: it performs the
/// action and reports how it went.
pub struct CopyFlush {
    begin: Statement,
    commit: Statement,
    rollback: Statement,
    steps: Vec<Statement>,
    completion: Completion,
    clear: Option<Statement>,
    phase: FlushPhase,
    outcome: Option<EtlError>,
}

/// Contents of a [`CopyFlush`].
pub struct FlushView {
    pub begin: StatementView,
    pub commit: StatementView,
    pub rollback: StatementView,
    pub steps: Seq<StatementView>,
    pub completion: CompletionView,
    pub clear: Option<StatementView>,
    pub phase: FlushPhase,
    pub outcome: Option<ErrorView>,
}

impl View for CopyFlush {
    type V = FlushView;

    closed spec fn view(&self) -> FlushView {
        FlushView {
            begin: self.begin@,
            commit: self.commit@,
            rollback: self.rollback@,
            steps: statement_views(self.steps@),
            completion: self.completion@,
            clear: optional_statement(self.clear),
            phase: self.phase,
            outcome: optional_error(self.outcome),
        }
    }
}

/// The statement that begins the transaction of a flush.
pub open spec fn flush_begin() -> StatementView {
    plain_statement("begin transaction"@, "DuckLake buffered copy BEGIN TRANSACTION failed"@)
}

/// The statement that commits the transaction of a flush.
pub open spec fn flush_commit() -> StatementView {
    plain_statement("commit"@, "DuckLake buffered copy COMMIT failed"@)
}

/// The statement that rolls the transaction of a flush back.
pub open spec fn flush_rollback() -> StatementView {
    plain_statement("rollback"@, "DuckLake buffered copy ROLLBACK failed"@)
}

/// Whether a flush has anything to do.
pub open spec fn flush_needed(copy: CopyView, copy_complete: Option<BatchView>) -> bool {
    copy.pending.len() > 0 || copy_complete is Some
}

/// The flush before its transaction begins.
pub open spec fn fresh_flush(copy: CopyView, copy_complete: Option<BatchView>) -> FlushView {
    FlushView {
        begin: flush_begin(),
        commit: flush_commit(),
        rollback: flush_rollback(),
        steps: flush_steps(copy),
        completion: completion_of(copy, copy_complete),
        clear: if copy.staging.created {
            Some(clear_staging_statement(copy.staging))
        } else {
            None
        },
        phase: FlushPhase::Begin,
        outcome: None,
    }
}

/// The flush once every statement ran.
pub open spec fn flush_steps_done(flush: FlushView) -> FlushView {
    match flush.completion {
        CompletionView::Absent => FlushView { phase: FlushPhase::Commit, ..flush },
        CompletionView::Foreign(error) => FlushView {
            phase: FlushPhase::Rollback,
            outcome: Some(error),
            ..flush
        },
        CompletionView::Marker { .. } => FlushView { phase: FlushPhase::CheckCompletion, ..flush },
    }
}

/// The flush once statement `index` is the next one, if there is one.
pub open spec fn at_flush_step(flush: FlushView, index: int) -> FlushView {
    if index < flush.steps.len() {
        FlushView { phase: FlushPhase::Step(index as usize), ..flush }
    } else {
        flush_steps_done(flush)
    }
}

/// The flush once its action succeeded. What a lookup found decides whether the
/// completion marker is inserted.
pub open spec fn flush_success(flush: FlushView, found: bool) -> FlushView {
    match flush.phase {
        FlushPhase::Begin => at_flush_step(flush, 0),
        FlushPhase::Step(index) => at_flush_step(flush, index + 1),
        FlushPhase::CheckCompletion => FlushView {
            phase: if found {
                FlushPhase::Commit
            } else {
                FlushPhase::InsertCompletion
            },
            ..flush
        },
        FlushPhase::InsertCompletion => FlushView { phase: FlushPhase::Commit, ..flush },
        FlushPhase::Commit => FlushView { phase: FlushPhase::Committed, ..flush },
        FlushPhase::Committed => FlushView {
            phase: if flush.clear is Some {
                FlushPhase::Clear
            } else {
                FlushPhase::Done
            },
            ..flush
        },
        FlushPhase::Clear => FlushView { phase: FlushPhase::Done, ..flush },
        FlushPhase::Rollback => FlushView { phase: FlushPhase::Done, ..flush },
        FlushPhase::Done => flush,
    }
}

/// The flush once its action failed. A failure before the commit rolls back. A
/// failed commit does not: whether it took effect is unknown.
pub open spec fn flush_failure(flush: FlushView, error: ErrorView) -> FlushView {
    match flush.phase {
        FlushPhase::Step(_) => FlushView {
            phase: FlushPhase::Rollback,
            outcome: Some(error),
            ..flush
        },
        FlushPhase::CheckCompletion => FlushView {
            phase: FlushPhase::Rollback,
            outcome: Some(error),
            ..flush
        },
        FlushPhase::InsertCompletion => FlushView {
            phase: FlushPhase::Rollback,
            outcome: Some(error),
            ..flush
        },
        FlushPhase::Rollback => FlushView { phase: FlushPhase::Done, ..flush },
        FlushPhase::Done => flush,
        _ => FlushView { phase: FlushPhase::Done, outcome: Some(error), ..flush },
    }
}

/// What the host does next.
pub open spec fn flush_action(flush: FlushView) -> FlushActionView {
    match flush.phase {
        FlushPhase::Begin => FlushActionView::Run(flush_begin()),
        FlushPhase::Step(index) => FlushActionView::Run(flush.steps[index as int]),
        FlushPhase::CheckCompletion => FlushActionView::Look(flush.completion->query),
        FlushPhase::InsertCompletion => FlushActionView::Run(flush.completion->insert),
        FlushPhase::Commit => FlushActionView::Run(flush_commit()),
        FlushPhase::Committed => FlushActionView::Hook,
        FlushPhase::Clear => FlushActionView::Run(flush.clear->0),
        FlushPhase::Rollback => FlushActionView::Run(flush_rollback()),
        FlushPhase::Done => FlushActionView::Done,
    }
}

/// Contents of an optional batch.
pub open spec fn optional_batch(batch: Option<PreparedDuckLakeTableBatch>) -> Option<BatchView> {
    match batch {
        None => None,
        Some(batch) => Some(batch@),
    }
}

impl CopyFlush {
    /// The phase names a statement that there is.
    pub closed spec fn wf(&self) -> bool {
        &&& self.begin@ == flush_begin()
        &&& self.commit@ == flush_commit()
        &&& self.rollback@ == flush_rollback()
        &&& self@.phase matches FlushPhase::Step(index) ==> index < self@.steps.len()
        &&& self@.phase is CheckCompletion || self@.phase is InsertCompletion
            ==> self@.completion is Marker
        &&& self@.phase is Clear ==> self@.clear is Some
    }

    /// Starts a flush, unless there is nothing to flush.
    pub fn new(
        accumulator: &DuckLakeCopyAccumulator,
        copy_complete: &Option<PreparedDuckLakeTableBatch>,
    ) -> (r: Option<CopyFlush>)
        ensures
            match r {
                None => !flush_needed(accumulator@, optional_batch(*copy_complete)),
                Some(flush) => {
                    &&& flush_needed(accumulator@, optional_batch(*copy_complete))
                    &&& flush.wf()
                    &&& flush@ == fresh_flush(accumulator@, optional_batch(*copy_complete))
                },
            },
    {
        let ghost copy = accumulator@;
        let pending_count: usize = accumulator.pending_markers.len();
        assert(copy.pending.len() == pending_count);
        if pending_count == 0 && copy_complete.is_none() {
            return None;
        }
        let mut steps: Vec<Statement> = Vec::new();
        if pending_count > 0 {
            steps.push(accumulator.staging.insert_statement());
            for i in 0..pending_count
                invariant
                    copy == accumulator@,
                    pending_count == accumulator.pending_markers@.len(),
                    pending_count == copy.pending.len(),
                    pending_count > 0,
                    steps@.len() == i + 1,
                    forall|j: int|
                        0 <= j < i + 1 ==> (#[trigger] steps@[j])@ == flush_steps(copy)[j],
            {
                let entry = &accumulator.pending_markers[i];
                assert(copy.pending[i as int].batch_id == entry.batch_id@);
                steps.push(
                    build_marker_statement(
                        &accumulator.table_name,
                        accumulator.replay_epoch.as_str(),
                        entry.batch_id.as_str(),
                        entry.marker,
                    ),
                );
            }
        }
        assert(statement_views(steps@) =~= flush_steps(copy));
        let completion = match copy_complete {
            None => Completion::Absent,
            Some(batch) => {
                let same_table = batch.table_name.same_as(&accumulator.table_name);
                let same_epoch = batch.replay_epoch == accumulator.replay_epoch;
                if !same_table || !same_epoch {
                    let mut detail = "table=".to_owned();
                    detail.append(accumulator.table_name.id().as_str());
                    Completion::Foreign(
                        EtlError::with_detail(
                            ErrorKind::InvalidState,
                            "DuckLake copy-complete marker does not match its buffered session",
                            detail,
                        ),
                    )
                } else {
                    Completion::Marker {
                        query: build_marker_query(
                            &batch.table_name,
                            batch.replay_epoch.as_str(),
                            batch.batch_id.as_str(),
                        ),
                        insert: build_marker_statement(
                            &batch.table_name,
                            batch.replay_epoch.as_str(),
                            batch.batch_id.as_str(),
                            PreparedDuckLakeBatchMarker {
                                batch_kind: batch.batch_kind,
                                first_start_lsn: batch.first_start_lsn,
                                last_commit_lsn: batch.last_commit_lsn,
                            },
                        ),
                    }
                }
            },
        };
        let clear = if accumulator.staging.created {
            Some(accumulator.staging.clear_statement())
        } else {
            None
        };
        Some(
            CopyFlush {
                begin: Statement::plain(
                    "begin transaction".to_owned(),
                    "DuckLake buffered copy BEGIN TRANSACTION failed",
                ),
                commit: Statement::plain(
                    "commit".to_owned(),
                    "DuckLake buffered copy COMMIT failed",
                ),
                rollback: Statement::plain(
                    "rollback".to_owned(),
                    "DuckLake buffered copy ROLLBACK failed",
                ),
                steps,
                completion,
                clear,
                phase: FlushPhase::Begin,
                outcome: None,
            },
        )
    }

    /// Returns what the host does next.
    pub fn action(&self) -> (r: FlushAction<'_>)
        requires
            self.wf(),
        ensures
            r@ == flush_action(self@),
    {
        match self.phase {
            FlushPhase::Begin => FlushAction::Run(&self.begin),
            FlushPhase::Step(index) => {
                assert(self@.steps[index as int] == self.steps@[index as int]@);
                FlushAction::Run(&self.steps[index])
            },
            FlushPhase::CheckCompletion => match &self.completion {
                Completion::Marker { query, .. } => FlushAction::Look(query),
                _ => FlushAction::Done,
            },
            FlushPhase::InsertCompletion => match &self.completion {
                Completion::Marker { insert, .. } => FlushAction::Run(insert),
                _ => FlushAction::Done,
            },
            FlushPhase::Commit => FlushAction::Run(&self.commit),
            FlushPhase::Committed => FlushAction::Hook,
            FlushPhase::Clear => match &self.clear {
                Some(statement) => FlushAction::Run(statement),
                None => FlushAction::Done,
            },
            FlushPhase::Rollback => FlushAction::Run(&self.rollback),
            FlushPhase::Done => FlushAction::Done,
        }
    }

    /// Returns where the flush stands.
    pub fn phase(&self) -> (r: FlushPhase)
        ensures
            r == self@.phase,
    {
        self.phase
    }

    fn enter_step(&mut self, index: usize)
        requires
            old(self).wf(),
            index <= old(self)@.steps.len(),
        ensures
            final(self).wf(),
            final(self)@ == at_flush_step(old(self)@, index as int),
    {
        assert(self@.steps.len() == self.steps@.len());
        if index < self.steps.len() {
            self.phase = FlushPhase::Step(index);
            return;
        }
        let mut refusal: Option<EtlError> = None;
        let next = match &self.completion {
            Completion::Absent => FlushPhase::Commit,
            Completion::Foreign(error) => {
                refusal = Some(clone_error(error));
                FlushPhase::Rollback
            },
            Completion::Marker { .. } => FlushPhase::CheckCompletion,
        };
        self.phase = next;
        if refusal.is_some() {
            self.outcome = refusal;
        }
    }

    /// Takes in that the action succeeded. `found` is what a lookup found, and
    /// means nothing after other actions.
    pub fn succeeded(&mut self, found: bool)
        requires
            old(self).wf(),
        ensures
            final(self).wf(),
            final(self)@ == flush_success(old(self)@, found),
    {
        match self.phase {
            FlushPhase::Begin => self.enter_step(0),
            FlushPhase::Step(index) => {
                assert(self@.steps.len() == self.steps@.len());
                let count: usize = self.steps.len();
                assert(index < count);
                self.enter_step(index + 1);
            },
            FlushPhase::CheckCompletion => {
                self.phase = if found {
                    FlushPhase::Commit
                } else {
                    FlushPhase::InsertCompletion
                };
            },
            FlushPhase::InsertCompletion => {
                self.phase = FlushPhase::Commit;
            },
            FlushPhase::Commit => {
                self.phase = FlushPhase::Committed;
            },
            FlushPhase::Committed => {
                self.phase = if self.clear.is_some() {
                    FlushPhase::Clear
                } else {
                    FlushPhase::Done
                };
            },
            FlushPhase::Clear => {
                self.phase = FlushPhase::Done;
            },
            FlushPhase::Rollback => {
                self.phase = FlushPhase::Done;
            },
            FlushPhase::Done => {},
        }
    }

    /// Takes in that the action failed.
    pub fn failed(&mut self, error: EtlError)
        requires
            old(self).wf(),
        ensures
            final(self).wf(),
            final(self)@ == flush_failure(old(self)@, error@),
    {
        match self.phase {
            FlushPhase::Step(_) | FlushPhase::CheckCompletion | FlushPhase::InsertCompletion => {
                self.phase = FlushPhase::Rollback;
                self.outcome = Some(error);
            },
            FlushPhase::Rollback => {
                self.phase = FlushPhase::Done;
            },
            FlushPhase::Done => {},
            FlushPhase::Begin | FlushPhase::Commit | FlushPhase::Committed | FlushPhase::Clear => {
                self.phase = FlushPhase::Done;
                self.outcome = Some(error);
            },
        }
    }

    /// Ends a flush: the accumulator forgets what it staged only when nothing
    /// failed.
    pub fn finish(self, accumulator: &mut DuckLakeCopyAccumulator) -> (r: Result<(), EtlError>)
        requires
            old(accumulator).wf(),
            self@.phase is Done,
        ensures
            final(accumulator).wf(),
            match r {
                Ok(_) => {
                    &&& self@.outcome is None
                    &&& final(accumulator)@ == emptied(old(accumulator)@)
                },
                Err(error) => {
                    &&& self@.outcome == Some(error@)
                    &&& final(accumulator)@ == old(accumulator)@
                },
            },
    {
        match self.outcome {
            Some(error) => Err(error),
            None => {
                accumulator.pending_markers = Vec::new();
                accumulator.staged_bytes = 0;
                assert(accumulator@.pending =~= Seq::empty());
                Ok(())
            },
        }
    }
}

/// The accumulator with nothing staged.
pub open spec fn emptied(copy: CopyView) -> CopyView {
    CopyView { pending: Seq::empty(), staged_bytes: 0, ..copy }
}

/// A staged batch is not staged again: appending it once more is skipped until
/// the accumulator is emptied.
pub proof fn law_append_is_idempotent(copy: CopyView, batch: BatchView, estimated_bytes: u64)
    requires
        same_session(copy, batch),
        staging_of(copy, batch, estimated_bytes) is Ok,
    ensures
        append_start(
            with_staged(copy, staging_of(copy, batch, estimated_bytes)->Ok_0),
            batch,
        ) == Ok::<AppendStartView, ErrorView>(AppendStartView::Skip),
{
    let stage = staging_of(copy, batch, estimated_bytes)->Ok_0;
    let after = with_staged(copy, stage);
    if is_pending(copy.pending, batch.batch_id) {
        let i = choose|i: int|
            0 <= i < copy.pending.len() && (#[trigger] copy.pending[i]).batch_id == batch.batch_id;
        assert(after.pending[i].batch_id == batch.batch_id);
    } else {
        assert(after.pending[copy.pending.len() as int].batch_id == batch.batch_id);
    }
}

/// How the host reports one action of a flush.
pub enum FlushReport {
    Succeeded { found: bool },
    Failed(ErrorView),
}

/// The flush once the host reported how its actions went, in order.
pub open spec fn flush_driven(flush: FlushView, reports: Seq<FlushReport>) -> FlushView
    decreases reports.len(),
{
    if reports.len() == 0 {
        flush
    } else {
        let before = flush_driven(flush, reports.drop_last());
        match reports.last() {
            FlushReport::Succeeded { found } => flush_success(before, found),
            FlushReport::Failed(error) => flush_failure(before, error),
        }
    }
}

/// Whether a flush stands before the outcome of its commit is known.
pub open spec fn before_commit(phase: FlushPhase) -> bool {
    phase is Begin || phase is Step || phase is CheckCompletion || phase is InsertCompletion
        || phase is Commit
}

/// Whether a flush stands after a successful commit, with nothing failed since.
pub open spec fn after_commit(flush: FlushView) -> bool {
    flush.phase is Committed || flush.phase is Clear || (flush.phase is Done && flush.outcome is None)
}

proof fn lemma_flush_driven(flush: FlushView, reports: Seq<FlushReport>)
    requires
        flush.phase is Begin,
        flush.outcome is None,
        flush.steps.len() <= usize::MAX,
    ensures
        flush_driven(flush, reports).steps == flush.steps,
        flush_driven(flush, reports).completion == flush.completion,
        flush_driven(flush, reports).clear == flush.clear,
        flush_driven(flush, reports).phase is Rollback ==> flush_driven(
            flush,
            reports,
        ).outcome is Some,
        before_commit(flush_driven(flush, reports).phase) || after_commit(
            flush_driven(flush, reports),
        ) ==> {
            &&& flush_driven(flush, reports).outcome is None
            &&& forall|i: int| 0 <= i < reports.len() ==> (#[trigger] reports[i]) is Succeeded
                || flush_driven(flush, reports.take(i)).phase is Done
        },
        before_commit(flush_driven(flush, reports).phase) ==> forall|i: int|
            0 <= i < reports.len() ==> before_commit(
                (#[trigger] flush_driven(flush, reports.take(i))).phase,
            ),
        flush_driven(flush, reports).phase matches FlushPhase::Step(index) ==> index
            < flush.steps.len() && reports.len() == index + 1,
        flush_driven(flush, reports).phase is Begin ==> reports.len() == 0,
        flush_driven(flush, reports).phase is CheckCompletion ==> reports.len()
            == flush.steps.len() + 1 && flush.completion is Marker,
        flush_driven(flush, reports).phase is InsertCompletion ==> reports.len()
            == flush.steps.len() + 2 && flush.completion is Marker,
        flush_driven(flush, reports).phase is Commit ==> reports.len() >= flush.steps.len() + 1
            && !(flush.completion is Foreign),
    decreases reports.len(),
{
    if reports.len() > 0 {
        let earlier = reports.drop_last();
        lemma_flush_driven(flush, earlier);
        let before = flush_driven(flush, earlier);
        let now = flush_driven(flush, reports);
        let last = reports.len() - 1;
        assert(reports.take(last) =~= earlier);
        if before_commit(now.phase) || after_commit(now) {
            assert forall|i: int| 0 <= i < reports.len() implies (#[trigger] reports[i]) is Succeeded
                || flush_driven(flush, reports.take(i)).phase is Done by {
                if i < last {
                    assert(earlier[i] == reports[i]);
                    assert(earlier.take(i) =~= reports.take(i));
                }
            }
        }
        if before_commit(now.phase) {
            assert forall|i: int| 0 <= i < reports.len() implies before_commit(
                (#[trigger] flush_driven(flush, reports.take(i))).phase,
            ) by {
                if i < last {
                    assert(earlier.take(i) =~= reports.take(i));
                }
            }
        }
    }
}

/// A flush is committed only after its transaction was begun and every
/// statement of it ran in order, all of them successfully.
pub proof fn law_flush_commits_after_every_statement(
    copy: CopyView,
    copy_complete: Option<BatchView>,
    reports: Seq<FlushReport>,
)
    requires
        flush_steps(copy).len() <= usize::MAX,
        flush_driven(fresh_flush(copy, copy_complete), reports).phase is Commit,
    ensures
        forall|i: int| 0 <= i < reports.len() ==> (#[trigger] reports[i]) is Succeeded,
        reports.len() >= flush_steps(copy).len() + 1,
        flush_action(flush_driven(fresh_flush(copy, copy_complete), reports.take(0)))
            == FlushActionView::Run(flush_begin()),
        forall|i: int|
            0 <= i < flush_steps(copy).len() ==> #[trigger] flush_action(
                flush_driven(fresh_flush(copy, copy_complete), reports.take(i + 1)),
            ) == FlushActionView::Run(flush_steps(copy)[i]),
        !(completion_of(copy, copy_complete) is Foreign),
{
    let flush = fresh_flush(copy, copy_complete);
    let steps = flush_steps(copy);
    lemma_flush_driven(flush, reports);
    assert forall|i: int| 0 <= i < reports.len() implies (#[trigger] reports[i]) is Succeeded by {
        assert(before_commit(flush_driven(flush, reports.take(i)).phase));
    }
    assert forall|i: int| 0 <= i < steps.len() implies #[trigger] flush_action(
        flush_driven(flush, reports.take(i + 1)),
    ) == FlushActionView::Run(steps[i]) by {
        lemma_steps_in_order(flush, reports, i);
    }
}

/// While everything succeeds, the statements of a flush come in order.
proof fn lemma_steps_in_order(flush: FlushView, reports: Seq<FlushReport>, index: int)
    requires
        flush.phase is Begin,
        flush.outcome is None,
        flush.steps.len() <= usize::MAX,
        0 <= index < flush.steps.len(),
        index + 1 <= reports.len(),
        forall|i: int| 0 <= i < reports.len() ==> (#[trigger] reports[i]) is Succeeded,
    ensures
        flush_driven(flush, reports.take(index + 1)).phase == FlushPhase::Step(index as usize),
        flush_driven(flush, reports.take(index + 1)).steps == flush.steps,
    decreases index,
{
    let until = reports.take(index + 1);
    assert(until.drop_last() =~= reports.take(index));
    assert(until.last() == reports[index]);
    if index == 0 {
        assert(reports.take(0) =~= Seq::empty());
        assert(flush_driven(flush, reports.take(0)) == flush);
    } else {
        lemma_steps_in_order(flush, reports, index - 1);
    }
}

/// Staged rows are forgotten only after they were committed: a flush that ends
/// without an error committed its transaction.
pub proof fn law_flush_without_error_was_committed(
    copy: CopyView,
    copy_complete: Option<BatchView>,
    reports: Seq<FlushReport>,
)
    requires
        flush_steps(copy).len() <= usize::MAX,
        flush_driven(fresh_flush(copy, copy_complete), reports).phase is Done,
        flush_driven(fresh_flush(copy, copy_complete), reports).outcome is None,
    ensures
        exists|k: int|
            0 <= k < reports.len() && flush_driven(
                fresh_flush(copy, copy_complete),
                #[trigger] reports.take(k),
            ).phase is Commit && reports[k] is Succeeded,
{
    lemma_committed(fresh_flush(copy, copy_complete), reports);
}

proof fn lemma_committed(flush: FlushView, reports: Seq<FlushReport>)
    requires
        flush.phase is Begin,
        flush.outcome is None,
        flush.steps.len() <= usize::MAX,
        after_commit(flush_driven(flush, reports)),
    ensures
        exists|k: int|
            0 <= k < reports.len() && flush_driven(flush, #[trigger] reports.take(k)).phase is Commit
                && reports[k] is Succeeded,
    decreases reports.len(),
{
    let earlier = reports.drop_last();
    let last = reports.len() - 1;
    lemma_flush_driven(flush, earlier);
    assert(reports.take(last) =~= earlier);
    if !(flush_driven(flush, earlier).phase is Commit) {
        lemma_committed(flush, earlier);
        let k = choose|k: int|
            0 <= k < earlier.len() && flush_driven(flush, #[trigger] earlier.take(k)).phase is Commit
                && earlier[k] is Succeeded;
        assert(reports.take(k) =~= earlier.take(k));
        assert(reports[k] == earlier[k]);
    }
}

/// A failure before the commit rolls the flush back, and the error it reports is
/// that failure, whatever the rollback does.
pub proof fn law_failed_flush_is_rolled_back(
    flush: FlushView,
    error: ErrorView,
    rollback: FlushReport,
)
    requires
        flush.phase is Step || flush.phase is CheckCompletion || flush.phase is InsertCompletion,
    ensures
        flush_action(flush_failure(flush, error)) == FlushActionView::Run(flush_rollback()),
        flush_driven(flush_failure(flush, error), seq![rollback]).phase is Done,
        flush_driven(flush_failure(flush, error), seq![rollback]).outcome == Some(error),
{
    let rolled = flush_failure(flush, error);
    assert(seq![rollback].drop_last() =~= Seq::empty());
    assert(flush_driven(rolled, seq![rollback].drop_last()) == rolled);
}

/// A failed commit ends the flush with its error and is not rolled back: whether
/// it took effect is unknown.
pub proof fn law_failed_commit_ends_the_flush(flush: FlushView, error: ErrorView)
    requires
        flush.phase is Commit,
    ensures
        flush_action(flush_failure(flush, error)) is Done,
        flush_failure(flush, error).outcome == Some(error),
{
}

/// A batch of another table, of another epoch or with other columns is refused. Any other
/// one is looked up by its marker unless it is staged already.
pub proof fn law_batches_of_other_sessions_are_refused(
    copy: CopyView,
    batch: PreparedDuckLakeTableBatch,
)
    ensures
        ({
            let belongs = batch.table_name.schema@ == copy.table.schema && batch.table_name.table@
                == copy.table.table && batch.replay_epoch@ == copy.replay_epoch && texts(
                batch.insert_column_names@,
            ) == copy.staging.columns;
            let staged = exists|i: int|
                0 <= i < copy.pending.len() && (#[trigger] copy.pending[i]).batch_id
                    == batch.batch_id@;
            &&& append_start(copy, batch@) is Err <==> !belongs
            &&& (append_start(copy, batch@) matches Ok(AppendStartView::Skip)) == (belongs && staged)
            &&& append_start(copy, batch@) matches Ok(AppendStartView::CheckMarker(query)) ==> query
                == marker_query(batch.table_name@, batch.replay_epoch@, batch.batch_id@)
        }),
{
    if batch.table_name.schema@ == copy.table.schema && batch.table_name.table@
        == copy.table.table {
        assert(batch.table_name@ == copy.table);
    }
}

/// Staging a batch adds its estimated size to what is staged, up to the largest machine
/// number, creates the staging table, and leaves its marker pending once; the other
/// pending markers stay as they are, in order.
pub proof fn law_staging_adds_a_pending_marker(copy: CopyView, stage: StageView, at: int)
    requires
        pending_once(copy.pending),
    ensures
        ({
            let after = with_staged(copy, stage);
            &&& pending_once(after.pending)
            &&& after.staging.created
            &&& after.staging.staging_name == copy.staging.staging_name
            &&& after.staging.table == copy.staging.table
            &&& after.staging.columns == copy.staging.columns
            &&& after.table == copy.table && after.replay_epoch == copy.replay_epoch
            &&& after.staged_bytes == (if copy.staged_bytes + stage.estimated_bytes
                < 0x1_0000_0000_0000_0000 {
                copy.staged_bytes + stage.estimated_bytes
            } else {
                0xffff_ffff_ffff_ffff
            })
            &&& 0 <= at < copy.pending.len() ==> {
                &&& after.pending[at].batch_id == copy.pending[at].batch_id
                &&& copy.pending[at].batch_id != stage.batch_id ==> after.pending[at]
                    == copy.pending[at]
            }
            &&& exists|i: int|
                0 <= i < after.pending.len() && (#[trigger] after.pending[i]).batch_id
                    == stage.batch_id && after.pending[i].marker == stage.marker
            &&& copy.pending.len() <= after.pending.len() <= copy.pending.len() + 1
        }),
{
    let after = with_staged(copy, stage);
    if is_pending(copy.pending, stage.batch_id) {
        let i = choose|i: int|
            0 <= i < copy.pending.len() && (#[trigger] copy.pending[i]).batch_id == stage.batch_id;
        assert(after.pending[i].batch_id == stage.batch_id);
        assert forall|i: int, j: int| 0 <= i < j < after.pending.len() implies (
        #[trigger] after.pending[i]).batch_id != (#[trigger] after.pending[j]).batch_id by {
            assert(copy.pending[i].batch_id != copy.pending[j].batch_id);
        }
    } else {
        let last = copy.pending.len() as int;
        assert(after.pending[last].batch_id == stage.batch_id);
        assert forall|i: int, j: int| 0 <= i < j < after.pending.len() implies (
        #[trigger] after.pending[i]).batch_id != (#[trigger] after.pending[j]).batch_id by {
            assert(after.pending[i] == copy.pending[i]);
            if j < last {
                assert(after.pending[j] == copy.pending[j]);
            }
        }
    }
}

/// A flush inserts what is staged and then the marker of every pending batch, once and in
/// order, for the table and the epoch of the session; with nothing pending it writes
/// nothing, and afterwards nothing is pending or staged.
pub proof fn law_flush_marks_every_pending_batch(copy: CopyView)
    ensures
        copy.pending.len() == 0 ==> flush_steps(copy).len() == 0,
        copy.pending.len() > 0 ==> {
            &&& flush_steps(copy).len() == copy.pending.len() + 1
            &&& flush_steps(copy)[0] == insert_staged_statement(copy.staging)
            &&& forall|i: int|
                0 <= i < copy.pending.len() ==> flush_steps(copy)[i + 1] == marker_statement(
                    copy.table,
                    copy.replay_epoch,
                    (#[trigger] copy.pending[i]).batch_id,
                    copy.pending[i].marker,
                )
        },
        emptied(copy).pending.len() == 0 && emptied(copy).staged_bytes == 0,
        emptied(copy).table == copy.table && emptied(copy).replay_epoch == copy.replay_epoch,
        emptied(copy).staging == copy.staging,
{
}

/// The marker of a finished copy is looked up and written for its own table and epoch, and
/// a marker of another table or epoch fails the flush.
pub proof fn law_completion_belongs_to_the_session(
    copy: CopyView,
    batch: PreparedDuckLakeTableBatch,
)
    ensures
        ({
            let belongs = batch.table_name.schema@ == copy.table.schema && batch.table_name.table@
                == copy.table.table && batch.replay_epoch@ == copy.replay_epoch;
            &&& completion_of(copy, None) is Absent
            &&& completion_of(copy, Some(batch@)) is Foreign <==> !belongs
            &&& completion_of(copy, Some(batch@)) is Marker <==> belongs
            &&& completion_of(copy, Some(batch@)) matches CompletionView::Marker { query, insert }
                ==> query == marker_query(
                batch.table_name@,
                batch.replay_epoch@,
                batch.batch_id@,
            ) && insert == marker_statement(
                batch.table_name@,
                batch.replay_epoch@,
                batch.batch_id@,
                (PreparedDuckLakeBatchMarker {
                    batch_kind: batch.batch_kind,
                    first_start_lsn: batch.first_start_lsn,
                    last_commit_lsn: batch.last_commit_lsn,
                }),
            )
        }),
{
    if batch.table_name.schema@ == copy.table.schema && batch.table_name.table@
        == copy.table.table {
        assert(batch.table_name@ == copy.table);
    }
}

/// A session is opened for a batch: it is of the batch's table and epoch and stages the
/// columns of the batch, with nothing staged and nothing pending, so the batch belongs to
/// it.
pub proof fn law_sessions_take_the_batch_they_were_opened_for(batch: PreparedDuckLakeTableBatch)
    ensures
        ({
            let copy = fresh_copy(batch@);
            &&& copy.table.schema == batch.table_name.schema@
            &&& copy.table.table == batch.table_name.table@
            &&& copy.replay_epoch == batch.replay_epoch@
            &&& copy.staging.columns == texts(batch.insert_column_names@)
            &&& copy.staging.table == copy.table
            &&& copy.staging.staging_name == "__staging_"@ + (batch.table_name.schema@ + "."@
                + batch.table_name.table@)
            &&& !copy.staging.created
            &&& copy.pending.len() == 0 && copy.staged_bytes == 0
            &&& append_start(copy, batch@) matches Ok(AppendStartView::CheckMarker(_))
        }),
{
}

/// What is staged of a batch is its rows under its id and marker. The staging table is
/// created with the first batch and no later one.
pub proof fn law_staged_batches_keep_their_rows(
    copy: CopyView,
    batch: PreparedDuckLakeTableBatch,
    estimated_bytes: u64,
)
    ensures
        match (buffered_rows(batch@), staging_of(copy, batch@, estimated_bytes)) {
            (Ok(rows), Ok(stage)) => {
                &&& stage.batch_id == batch.batch_id@
                &&& stage.marker.batch_kind == batch.batch_kind
                &&& stage.marker.first_start_lsn == batch.first_start_lsn
                &&& stage.marker.last_commit_lsn == batch.last_commit_lsn
                &&& stage.estimated_bytes == estimated_bytes
                &&& stage.rows == rows
                &&& stage.load == staging_load(copy.staging, rows)
                &&& stage.create is Some <==> !copy.staging.created
                &&& stage.create matches Some(create) ==> create == create_staging_statement(
                    copy.staging,
                )
            },
            (Err(error), Err(refused)) => refused == error,
            _ => false,
        },
{
}

/// How a flush goes on: the completion marker is written exactly when the look for it
/// found none, the staging table is emptied behind the commit exactly where there is one,
/// a marker of another session rolls the flush back, and the outcome is the first failure.
pub proof fn law_flushes_go_on_as_they_went(
    copy: CopyView,
    complete: Option<BatchView>,
    flush: FlushView,
    index: usize,
    found: bool,
    error: ErrorView,
)
    ensures
        ({
            let next = flush_success(flush, found);
            let last = flush.phase == FlushPhase::Step(index) && index + 1 >= flush.steps.len()
                || flush.phase is Begin && flush.steps.len() == 0;
            &&& flush_needed(copy, complete) <==> copy.pending.len() > 0 || complete is Some
            &&& fresh_flush(copy, complete).clear is Some <==> copy.staging.created
            &&& fresh_flush(copy, complete).clear matches Some(clear) ==> clear
                == clear_staging_statement(copy.staging)
            &&& fresh_flush(copy, complete).phase is Begin && fresh_flush(
                copy,
                complete,
            ).outcome is None
            &&& fresh_flush(copy, complete).steps == flush_steps(copy)
            &&& fresh_flush(copy, complete).completion == completion_of(copy, complete)
            &&& flush.phase is CheckCompletion ==> next.phase == (if found {
                FlushPhase::Commit
            } else {
                FlushPhase::InsertCompletion
            })
            &&& flush.phase is InsertCompletion ==> next.phase is Commit
            &&& flush.phase is Commit ==> next.phase is Committed
            &&& flush.phase is Committed ==> next.phase == (if flush.clear is Some {
                FlushPhase::Clear
            } else {
                FlushPhase::Done
            })
            &&& flush.phase is Clear || flush.phase is Rollback || flush.phase is Done
                ==> next.phase is Done
            &&& last ==> match flush.completion {
                CompletionView::Absent => next.phase is Commit && next.outcome == flush.outcome,
                CompletionView::Foreign(foreign) => next.phase is Rollback && next.outcome
                    == Some(foreign),
                CompletionView::Marker { .. } => next.phase is CheckCompletion && next.outcome
                    == flush.outcome,
            }
            &&& !last && (flush.phase is Step ==> flush.phase == FlushPhase::Step(index))
                ==> next.outcome == flush.outcome
            &&& flush.phase == FlushPhase::Step(index) && !last ==> next.phase == FlushPhase::Step(
                (index + 1) as usize,
            )
            &&& next.steps == flush.steps && next.completion == flush.completion && next.clear
                == flush.clear
            &&& flush.phase is Rollback || flush.phase is Done ==> flush_failure(
                flush,
                error,
            ).outcome == flush.outcome
            &&& !(flush.phase is Rollback) && !(flush.phase is Done) ==> flush_failure(
                flush,
                error,
            ).outcome == Some(error)
            &&& flush_failure(flush, error).phase == (if flush.phase is Step
                || flush.phase is CheckCompletion || flush.phase is InsertCompletion {
                FlushPhase::Rollback
            } else {
                FlushPhase::Done
            })
            &&& flush_begin().sql == "begin transaction"@
            &&& flush_commit().sql == "commit"@
            &&& flush_rollback().sql == "rollback"@
        }),
{
}

/// Batches and markers of other sessions are refused by errors that name the table of the
/// session.
pub proof fn law_refused_batches_name_the_session(copy: CopyView)
    ensures
        session_error(copy).kind is InvalidState,
        session_error(copy).description
            == "DuckLake buffered copy batch does not match its staging session"@,
        session_error(copy).detail == Some(
            "table="@ + (copy.table.schema + "."@ + copy.table.table),
        ),
        completion_error(copy).kind is InvalidState,
        completion_error(copy).description
            == "DuckLake copy-complete marker does not match its buffered session"@,
        completion_error(copy).detail == Some(
            "table="@ + (copy.table.schema + "."@ + copy.table.table),
        ),
{
}

} // verus!
