//! Application of one atomic batch in one transaction.

use vstd::prelude::*;

use crate::batches::{
    is_streaming, marker_of, ActionView, BatchView, PreparedDuckLakeBatchMarker,
    PreparedDuckLakeTableBatch, PreparedDuckLakeTableBatchAction,
};
use crate::error::{clone_error, detailed_error, ErrorKind, ErrorView, EtlError};
use crate::hooks::{
    armed_table, counted, counted_all, creations, disarmed, injected_failure,
    maybe_fail_after_committed_batch_for_tests, record_staging_table_creation, DuckLakeTestHooks,
    HooksView,
};
use crate::literal::{payload_rows, prepared_rows_count, PreparedRows, PreparedRowsView};
use crate::mutation::{prepared_views, PreparedTableMutation, PreparedView};
use crate::schema::{lake_table, table_id};
use crate::staging::{
    clear_staging_statement, create_staging_statement, drop_staging_statement, fresh_staging,
    insert_staged_statement, literal_statements, staging_load, ReusableStagingTable, StagingLoad,
    StagingLoadView, StagingView,
};
use crate::statements::{
    build_delete_statements, build_key_set_delete_statement, build_marker_statement, build_progress_statements,
    build_truncate_statement, build_update_statement, delete_statements, key_set_delete_statement,
    marker_statement, plain_statement, progress_statements, statement_views, truncate_statement,
    update_statement, Statement, StatementView,
};
use crate::streaming_progress::StreamingProgressTable;
use crate::text::{joined, quoted, texts};

verus! {

/// One step of a batch inside its transaction.
#[derive(Debug, PartialEq)]
pub enum BatchStep {
    /// Create the staging table.
    CreateStaging(Statement),
    /// Run a statement.
    Execute(Statement),
    /// Append the payload of that operation to the staging table.
    Append { operation: usize },
}

/// Contents of a [`BatchStep`].
pub enum StepView {
    CreateStaging(StatementView),
    Execute(StatementView),
    Append { operation: int },
}

impl View for BatchStep {
    type V = StepView;

    open spec fn view(&self) -> StepView {
        match *self {
            BatchStep::CreateStaging(statement) => StepView::CreateStaging(statement@),
            BatchStep::Execute(statement) => StepView::Execute(statement@),
            BatchStep::Append { operation } => StepView::Append { operation: operation as int },
        }
    }
}

/// Contents of a list of steps.
pub open spec fn step_views(steps: Seq<BatchStep>) -> Seq<StepView> {
    steps.map_values(|s: BatchStep| s@)
}

/// Statements as steps.
pub open spec fn execute_steps(statements: Seq<StatementView>) -> Seq<StepView> {
    statements.map_values(|s: StatementView| StepView::Execute(s))
}

/// The steps that load a payload into the staging table.
pub open spec fn load_steps(staging: StagingView, rows: PreparedRowsView, operation: int) -> Seq<
    StepView,
> {
    match staging_load(staging, rows) {
        StagingLoadView::Append => seq![StepView::Append { operation }],
        StagingLoadView::Execute(statements) => execute_steps(statements),
    }
}

/// The steps that append a payload to the destination table: the staging table
/// is created once and emptied before each reuse. An empty payload needs none.
pub open spec fn upsert_steps(
    staging: StagingView,
    rows: PreparedRowsView,
    operation: int,
    created: bool,
) -> Seq<StepView> {
    if payload_rows(rows) == 0 {
        Seq::empty()
    } else {
        seq![
            if created {
                StepView::Execute(clear_staging_statement(staging))
            } else {
                StepView::CreateStaging(create_staging_statement(staging))
            },
        ] + load_steps(staging, rows, operation) + seq![
            StepView::Execute(insert_staged_statement(staging)),
        ]
    }
}

/// The steps of one prepared operation.
pub open spec fn operation_steps(
    staging: StagingView,
    prepared: PreparedView,
    operation: int,
    created: bool,
) -> Seq<StepView> {
    match prepared {
        PreparedView::Upsert(rows) => upsert_steps(staging, rows, operation, created),
        PreparedView::Delete { predicates, key_set, .. } => match key_set {
            Some(key_set) => seq![
                StepView::Execute(key_set_delete_statement(staging.table, key_set)),
            ],
            None => execute_steps(delete_statements(staging.table, predicates)),
        },
        PreparedView::Update { assignments, predicate } => if assignments.len() == 0 {
            Seq::empty()
        } else {
            seq![StepView::Execute(update_statement(staging.table, assignments, predicate))]
        },
    }
}

/// Whether one of the first `count` operations uses the staging table.
pub open spec fn uses_staging(prepared: Seq<PreparedView>, count: int) -> bool {
    exists|k: int|
        0 <= k < count && (#[trigger] prepared[k] matches PreparedView::Upsert(rows)
            && payload_rows(rows) > 0)
}

/// The steps of the first `count` operations.
pub open spec fn operations_steps(
    staging: StagingView,
    prepared: Seq<PreparedView>,
    count: nat,
) -> Seq<StepView>
    decreases count,
{
    if count == 0 {
        Seq::empty()
    } else {
        operations_steps(staging, prepared, (count - 1) as nat) + operation_steps(
            staging,
            prepared[count - 1],
            count - 1,
            uses_staging(prepared, count - 1),
        )
    }
}

/// The staging table of a batch.
pub open spec fn batch_staging(batch: BatchView) -> StagingView {
    fresh_staging(batch.table, batch.insert_column_names)
}

/// The steps of a batch between the start of its transaction and its
/// checkpoint.
pub open spec fn batch_steps(batch: BatchView) -> Seq<StepView> {
    match batch.action {
        ActionView::Truncate => seq![StepView::Execute(truncate_statement(batch.table))],
        ActionView::Mutation(prepared) => operations_steps(
            batch_staging(batch),
            prepared,
            prepared.len(),
        ),
    }
}

/// The error of a streaming batch without its last sequence key.
pub open spec fn missing_last_key_error(batch: BatchView) -> ErrorView {
    detailed_error(
        ErrorKind::InvalidState,
        "DuckLake streaming batch is missing its last sequence key"@,
        "table="@ + table_id(batch.table) + ", batch_kind="@ + batch.batch_kind.label(),
    )
}

/// The statements that make a batch's replay idempotent: a streaming batch
/// appends its watermark to every progress table that the pipeline recording into
/// `progress` writes, a copy batch records its marker.
pub open spec fn batch_checkpoint(progress: Seq<char>, batch: BatchView) -> Result<
    Seq<StatementView>,
    ErrorView,
> {
    if is_streaming(batch.batch_kind) {
        match batch.last_sequence_key {
            None => Err(missing_last_key_error(batch)),
            Some(key) => Ok(progress_statements(progress, batch.table, batch.replay_epoch, key)),
        }
    } else {
        Ok(
            seq![
                marker_statement(
                    batch.table,
                    batch.replay_epoch,
                    batch.batch_id,
                    marker_of(batch),
                ),
            ],
        )
    }
}

fn push_statements(steps: &mut Vec<BatchStep>, statements: Vec<Statement>)
    ensures
        step_views(final(steps)@) == step_views(old(steps)@) + execute_steps(
            statement_views(statements@),
        ),
{
    let ghost before = step_views(steps@);
    let ghost all = execute_steps(statement_views(statements@));
    assert(before + all.take(0) =~= before);
    for statement in iter: statements
        invariant
            iter.seq() == statements@,
            before == step_views(old(steps)@),
            all == execute_steps(statement_views(statements@)),
            step_views(steps@) == before + all.take(iter.index()),
    {
        let ghost held = step_views(steps@);
        assert(all[iter.index()] == StepView::Execute(statement@));
        steps.push(BatchStep::Execute(statement));
        assert(step_views(steps@) =~= held.push(StepView::Execute(statement@)));
        assert(before + all.take(iter.index() + 1) =~= (before + all.take(iter.index())).push(
            all[iter.index()],
        ));
    }
    assert(all.take(all.len() as int) =~= all);
}

fn push_step(steps: &mut Vec<BatchStep>, step: BatchStep)
    ensures
        step_views(final(steps)@) == step_views(old(steps)@).push(step@),
{
    let ghost held = step_views(steps@);
    steps.push(step);
    assert(step_views(steps@) =~= held.push(step@));
}

fn push_upsert(
    steps: &mut Vec<BatchStep>,
    staging: &ReusableStagingTable,
    rows: &PreparedRows,
    operation: usize,
    created: bool,
)
    ensures
        step_views(final(steps)@) == step_views(old(steps)@) + upsert_steps(
            staging@,
            rows@,
            operation as int,
            created,
        ),
{
    let ghost before = step_views(steps@);
    if prepared_rows_count(rows) == 0 {
        assert(before + Seq::<StepView>::empty() =~= before);
        return;
    }
    let first = if created {
        BatchStep::Execute(staging.clear_statement())
    } else {
        BatchStep::CreateStaging(staging.create_statement())
    };
    let ghost first_view = first@;
    push_step(steps, first);
    match staging.load_rows(rows) {
        StagingLoad::Append => push_step(steps, BatchStep::Append { operation }),
        StagingLoad::Execute(statements) => push_statements(steps, statements),
    }
    push_step(steps, BatchStep::Execute(staging.insert_statement()));
    proof {
        let load = load_steps(staging@, rows@, operation as int);
        let last = StepView::Execute(insert_staged_statement(staging@));
        assert(step_views(steps@) =~= before + (seq![first_view] + load + seq![last]));
    }
}

/// Builds the steps of a batch between the start of its transaction and its
/// checkpoint.
pub fn build_batch_steps(batch: &PreparedDuckLakeTableBatch) -> (r: Vec<BatchStep>)
    ensures
        step_views(r@) == batch_steps(batch@),
{
    let mut steps: Vec<BatchStep> = Vec::new();
    match &batch.action {
        PreparedDuckLakeTableBatchAction::Truncate => {
            steps.push(BatchStep::Execute(build_truncate_statement(&batch.table_name)));
            assert(step_views(steps@) =~= seq![
                StepView::Execute(truncate_statement(batch@.table)),
            ]);
        },
        PreparedDuckLakeTableBatchAction::Mutation(prepared) => {
            let mut names: Vec<String> = Vec::new();
            for i in 0..batch.insert_column_names.len()
                invariant
                    names@.len() == i,
                    forall|j: int|
                        0 <= j < i ==> (#[trigger] names@[j])@ == batch.insert_column_names@[j]@,
            {
                names.push(batch.insert_column_names[i].clone());
            }
            assert(texts(names@) =~= batch@.insert_column_names);
            let staging = ReusableStagingTable::new(&batch.table_name, names);
            let ghost all = prepared_views(prepared@);
            let mut created = false;
            assert(step_views(steps@) =~= Seq::empty());
            for operation in 0..prepared.len()
                invariant
                    all == prepared_views(prepared@),
                    staging@ == batch_staging(batch@),
                    created == uses_staging(all, operation as int),
                    step_views(steps@) == operations_steps(staging@, all, operation as nat),
            {
                let ghost held = step_views(steps@);
                let ghost view = all[operation as int];
                let ghost was_created = created;
                assert(view == prepared@[operation as int]@);
                match &prepared[operation] {
                    PreparedTableMutation::Upsert(rows) => {
                        push_upsert(&mut steps, &staging, rows, operation, created);
                        if prepared_rows_count(rows) > 0 {
                            created = true;
                        }
                    },
                    PreparedTableMutation::Delete { predicates, key_set, .. } => match key_set {
                        Some(key_set) => {
                            push_step(
                                &mut steps,
                                BatchStep::Execute(
                                    build_key_set_delete_statement(
                                        &batch.table_name,
                                        key_set.as_str(),
                                    ),
                                ),
                            );
                            assert(step_views(steps@) =~= held + operation_steps(
                                staging@,
                                view,
                                operation as int,
                                was_created,
                            ));
                        },
                        None => push_statements(
                            &mut steps,
                            build_delete_statements(&batch.table_name, predicates),
                        ),
                    },
                    PreparedTableMutation::Update { assignments, predicate } => {
                        if assignments.len() > 0 {
                            push_step(
                                &mut steps,
                                BatchStep::Execute(
                                    build_update_statement(
                                        &batch.table_name,
                                        assignments,
                                        predicate.as_str(),
                                    ),
                                ),
                            );
                        }
                        assert(step_views(steps@) =~= held + operation_steps(
                            staging@,
                            view,
                            operation as int,
                            was_created,
                        ));
                    },
                }
                proof {
                    let grown = uses_staging(all, operation + 1);
                    if was_created {
                        let k = choose|k: int|
                            0 <= k < operation && (#[trigger] all[k] matches PreparedView::Upsert(rows)
                                && payload_rows(rows) > 0);
                        assert(all[k] is Upsert);
                        assert(grown);
                    }
                    if view is Upsert && payload_rows(view->Upsert_0) > 0 {
                        assert(all[operation as int] is Upsert);
                        assert(grown);
                    }
                    if grown && !was_created {
                        let k = choose|k: int|
                            0 <= k < operation + 1 && (#[trigger] all[k] matches PreparedView::Upsert(
                                rows,
                            ) && payload_rows(rows) > 0);
                        assert(k == operation);
                    }
                }
            }
        },
    }
    steps
}

/// Builds the statements that make a batch's replay idempotent.
pub fn build_batch_checkpoint(
    progress: &StreamingProgressTable,
    batch: &PreparedDuckLakeTableBatch,
) -> (r: Result<Vec<Statement>, EtlError>)
    ensures
        match r {
            Ok(statements) => batch_checkpoint(progress@, batch@) == Ok::<
                Seq<StatementView>,
                ErrorView,
            >(statement_views(statements@)),
            Err(error) => batch_checkpoint(progress@, batch@) == Err::<
                Seq<StatementView>,
                ErrorView,
            >(error@),
        },
{
    if batch.uses_streaming_progress() {
        match batch.last_sequence_key {
            None => {
                let mut detail = "table=".to_owned();
                detail.append(batch.table_name.id().as_str());
                detail.append(", batch_kind=");
                detail.append(batch.batch_kind.as_str());
                Err(
                    EtlError::with_detail(
                        ErrorKind::InvalidState,
                        "DuckLake streaming batch is missing its last sequence key",
                        detail,
                    ),
                )
            },
            Some(key) => Ok(
                build_progress_statements(
                    progress,
                    &batch.table_name,
                    batch.replay_epoch.as_str(),
                    key,
                ),
            ),
        }
    } else {
        let marker = build_marker_statement(
            &batch.table_name,
            batch.replay_epoch.as_str(),
            batch.batch_id.as_str(),
            PreparedDuckLakeBatchMarker {
                batch_kind: batch.batch_kind,
                first_start_lsn: batch.first_start_lsn,
                last_commit_lsn: batch.last_commit_lsn,
            },
        );
        let mut statements: Vec<Statement> = Vec::new();
        statements.push(marker);
        assert(statement_views(statements@) =~= seq![marker@]);
        Ok(statements)
    }
}

/// Text that rolls a transaction back.
pub const ROLLBACK_SQL: &'static str = "ROLLBACK";

/// The statement that begins the transaction of a batch.
pub open spec fn begin_statement() -> StatementView {
    plain_statement("BEGIN TRANSACTION"@, "DuckLake BEGIN TRANSACTION failed"@)
}

/// Builds the statement that begins the transaction of a batch.
pub fn build_begin_statement() -> (r: Statement)
    ensures
        r@ == begin_statement(),
{
    Statement::plain("BEGIN TRANSACTION".to_owned(), "DuckLake BEGIN TRANSACTION failed")
}

/// The statement that commits the transaction of a batch.
pub open spec fn commit_statement() -> StatementView {
    plain_statement("COMMIT"@, "DuckLake COMMIT failed"@)
}

/// Builds the statement that commits the transaction of a batch.
pub fn build_commit_statement() -> (r: Statement)
    ensures
        r@ == commit_statement(),
{
    Statement::plain("COMMIT".to_owned(), "DuckLake COMMIT failed")
}

/// Where a batch transaction stands.
#[derive(Clone, Copy, Debug, PartialEq, Eq, Structural)]
pub enum TransactionPhase {
    /// The transaction is to be begun.
    Begin,
    /// That step is to run.
    Step(usize),
    /// That statement of the checkpoint is to be written.
    Checkpoint(usize),
    /// The transaction is to be committed.
    Commit,
    /// The transaction is to be rolled back.
    Rollback,
    /// The staging table is to be dropped.
    Cleanup,
    /// Nothing is left to do.
    Done,
}

/// What the host does next for a batch.
pub enum TransactionAction<'a> {
    Begin,
    Step(&'a BatchStep),
    Checkpoint(&'a Statement),
    Commit,
    Rollback,
    Cleanup(&'a Statement),
    Done,
}

/// Contents of a [`TransactionAction`].
pub enum TransactionActionView {
    Begin,
    Step(StepView),
    Checkpoint(StatementView),
    Commit,
    Rollback,
    Cleanup(StatementView),
    Done,
}

impl<'a> View for TransactionAction<'a> {
    type V = TransactionActionView;

    open spec fn view(&self) -> TransactionActionView {
        match *self {
            TransactionAction::Begin => TransactionActionView::Begin,
            TransactionAction::Step(step) => TransactionActionView::Step(step@),
            TransactionAction::Checkpoint(statement) => TransactionActionView::Checkpoint(
                statement@,
            ),
            TransactionAction::Commit => TransactionActionView::Commit,
            TransactionAction::Rollback => TransactionActionView::Rollback,
            TransactionAction::Cleanup(statement) => TransactionActionView::Cleanup(statement@),
            TransactionAction::Done => TransactionActionView::Done,
        }
    }
}

/// The application of one batch, driven by the host: it performs the action and
/// reports how it went.
pub struct BatchTransaction {
    steps: Vec<BatchStep>,
    checkpoint: Result<Vec<Statement>, EtlError>,
    cleanup: Statement,
    staged: bool,
    phase: TransactionPhase,
    outcome: Option<EtlError>,
}

/// Contents of a [`BatchTransaction`].
pub struct TransactionView {
    pub steps: Seq<StepView>,
    pub checkpoint: Result<Seq<StatementView>, ErrorView>,
    pub cleanup: StatementView,
    pub staged: bool,
    pub phase: TransactionPhase,
    pub outcome: Option<ErrorView>,
}

/// Contents of an optional error.
pub open spec fn optional_error(error: Option<EtlError>) -> Option<ErrorView> {
    match error {
        None => None,
        Some(error) => Some(error@),
    }
}

impl View for BatchTransaction {
    type V = TransactionView;

    closed spec fn view(&self) -> TransactionView {
        TransactionView {
            steps: step_views(self.steps@),
            checkpoint: match self.checkpoint {
                Ok(statements) => Ok(statement_views(statements@)),
                Err(error) => Err(error@),
            },
            cleanup: self.cleanup@,
            staged: self.staged,
            phase: self.phase,
            outcome: optional_error(self.outcome),
        }
    }
}

/// The transaction of a batch before it begins, in a pipeline recording into
/// `progress`.
pub open spec fn fresh_transaction(progress: Seq<char>, batch: BatchView) -> TransactionView {
    TransactionView {
        steps: batch_steps(batch),
        checkpoint: batch_checkpoint(progress, batch),
        cleanup: drop_staging_statement(batch_staging(batch)),
        staged: false,
        phase: TransactionPhase::Begin,
        outcome: None,
    }
}

/// The transaction once statement `index` of the checkpoint is the next one. The
/// commit follows the last of them.
pub open spec fn at_checkpoint(run: TransactionView, index: int) -> TransactionView {
    if index < run.checkpoint->Ok_0.len() {
        TransactionView { phase: TransactionPhase::Checkpoint(index as usize), ..run }
    } else {
        TransactionView { phase: TransactionPhase::Commit, ..run }
    }
}

/// The transaction once every step ran: the checkpoint follows, or the rollback
/// where there is no checkpoint to write.
pub open spec fn steps_done(run: TransactionView) -> TransactionView {
    match run.checkpoint {
        Ok(_) => at_checkpoint(run, 0),
        Err(error) => TransactionView {
            phase: TransactionPhase::Rollback,
            outcome: Some(error),
            ..run
        },
    }
}

/// The transaction once step `index` is the next one, if there is one.
pub open spec fn at_step(run: TransactionView, index: int) -> TransactionView {
    if index < run.steps.len() {
        TransactionView { phase: TransactionPhase::Step(index as usize), ..run }
    } else {
        steps_done(run)
    }
}

/// The transaction once it ended: a staging table that was created is dropped.
pub open spec fn ended(run: TransactionView) -> TransactionView {
    TransactionView {
        phase: if run.staged {
            TransactionPhase::Cleanup
        } else {
            TransactionPhase::Done
        },
        ..run
    }
}

/// The transaction once its action succeeded.
pub open spec fn after_success(run: TransactionView) -> TransactionView {
    match run.phase {
        TransactionPhase::Begin => at_step(run, 0),
        TransactionPhase::Step(index) => at_step(
            TransactionView {
                staged: run.staged || run.steps[index as int] is CreateStaging,
                ..run
            },
            index + 1,
        ),
        TransactionPhase::Checkpoint(index) => at_checkpoint(run, index + 1),
        TransactionPhase::Commit => ended(run),
        TransactionPhase::Rollback => ended(run),
        TransactionPhase::Cleanup => TransactionView { phase: TransactionPhase::Done, ..run },
        TransactionPhase::Done => run,
    }
}

/// The transaction once its action failed. A failure before the commit rolls
/// back, and failures of the rollback and of the cleanup change nothing.
pub open spec fn after_failure(run: TransactionView, error: ErrorView) -> TransactionView {
    match run.phase {
        TransactionPhase::Begin => TransactionView {
            phase: TransactionPhase::Done,
            outcome: Some(error),
            ..run
        },
        TransactionPhase::Step(_) => TransactionView {
            phase: TransactionPhase::Rollback,
            outcome: Some(error),
            ..run
        },
        TransactionPhase::Checkpoint(_) => TransactionView {
            phase: TransactionPhase::Rollback,
            outcome: Some(error),
            ..run
        },
        TransactionPhase::Commit => ended(TransactionView { outcome: Some(error), ..run }),
        TransactionPhase::Rollback => ended(run),
        TransactionPhase::Cleanup => TransactionView { phase: TransactionPhase::Done, ..run },
        TransactionPhase::Done => run,
    }
}

/// What the host does next.
pub open spec fn next_action(run: TransactionView) -> TransactionActionView {
    match run.phase {
        TransactionPhase::Begin => TransactionActionView::Begin,
        TransactionPhase::Step(index) => TransactionActionView::Step(run.steps[index as int]),
        TransactionPhase::Checkpoint(index) => TransactionActionView::Checkpoint(
            run.checkpoint->Ok_0[index as int],
        ),
        TransactionPhase::Commit => TransactionActionView::Commit,
        TransactionPhase::Rollback => TransactionActionView::Rollback,
        TransactionPhase::Cleanup => TransactionActionView::Cleanup(run.cleanup),
        TransactionPhase::Done => TransactionActionView::Done,
    }
}

/// The hooks once an action of the batch of `table` succeeded: a staging table
/// that was created is counted.
pub open spec fn hooks_after_success(
    run: TransactionView,
    table: Seq<char>,
    hooks: HooksView,
) -> HooksView {
    if creates_staging(run) {
        counted(hooks, table)
    } else {
        hooks
    }
}

/// Whether the host creates the staging table next.
pub open spec fn creates_staging(run: TransactionView) -> bool {
    next_action(run) matches TransactionActionView::Step(step) && step is CreateStaging
}

impl BatchTransaction {
    /// The phase names a step or a statement of the checkpoint that there is, and
    /// nothing failed before the transaction ended.
    pub open spec fn wf(&self) -> bool {
        &&& self@.steps.len() <= usize::MAX
        &&& self@.phase matches TransactionPhase::Step(index) ==> index < self@.steps.len()
        &&& self@.checkpoint matches Ok(statements) ==> statements.len() <= usize::MAX
        &&& self@.phase matches TransactionPhase::Checkpoint(index) ==> self@.checkpoint is Ok
            && index < self@.checkpoint->Ok_0.len()
        &&& self@.phase is Begin || self@.phase is Step || self@.phase is Checkpoint
            || self@.phase is Commit ==> self@.outcome is None
    }

    /// Starts the application of a batch in a pipeline recording into `progress`.
    pub fn new(progress: &StreamingProgressTable, batch: &PreparedDuckLakeTableBatch) -> (r:
        BatchTransaction)
        ensures
            r.wf(),
            r@ == fresh_transaction(progress@, batch@),
    {
        let mut names: Vec<String> = Vec::new();
        for i in 0..batch.insert_column_names.len()
            invariant
                names@.len() == i,
                forall|j: int|
                    0 <= j < i ==> (#[trigger] names@[j])@ == batch.insert_column_names@[j]@,
        {
            names.push(batch.insert_column_names[i].clone());
        }
        assert(texts(names@) =~= batch@.insert_column_names);
        let staging = ReusableStagingTable::new(&batch.table_name, names);
        let steps = build_batch_steps(batch);
        let count: usize = steps.len();
        assert(step_views(steps@).len() == count);
        let checkpoint = build_batch_checkpoint(progress, batch);
        if let Ok(statements) = &checkpoint {
            let written: usize = statements.len();
            assert(statement_views(statements@).len() == written);
        }
        BatchTransaction {
            steps,
            checkpoint,
            cleanup: staging.drop_statement(),
            staged: false,
            phase: TransactionPhase::Begin,
            outcome: None,
        }
    }

    /// Returns what the host does next.
    pub fn action(&self) -> (r: TransactionAction<'_>)
        requires
            self.wf(),
        ensures
            r@ == next_action(self@),
    {
        assert(self@.steps.len() == self.steps@.len());
        match self.phase {
            TransactionPhase::Begin => TransactionAction::Begin,
            TransactionPhase::Step(index) => {
                assert(self@.steps[index as int] == self.steps@[index as int]@);
                TransactionAction::Step(&self.steps[index])
            },
            TransactionPhase::Checkpoint(index) => match &self.checkpoint {
                Ok(statements) => {
                    assert(self@.checkpoint->Ok_0[index as int] == statements@[index as int]@);
                    TransactionAction::Checkpoint(&statements[index])
                },
                Err(_) => {
                    assert(false);
                    TransactionAction::Done
                },
            },
            TransactionPhase::Commit => TransactionAction::Commit,
            TransactionPhase::Rollback => TransactionAction::Rollback,
            TransactionPhase::Cleanup => TransactionAction::Cleanup(&self.cleanup),
            TransactionPhase::Done => TransactionAction::Done,
        }
    }

    fn enter_checkpoint(&mut self, index: usize)
        requires
            old(self)@.steps.len() <= usize::MAX,
            old(self)@.checkpoint is Ok,
            old(self)@.checkpoint->Ok_0.len() <= usize::MAX,
            old(self).outcome is None,
        ensures
            final(self).wf(),
            final(self)@ == at_checkpoint(old(self)@, index as int),
    {
        let total: usize = match &self.checkpoint {
            Ok(statements) => statements.len(),
            Err(_) => 0,
        };
        assert(total == self@.checkpoint->Ok_0.len());
        self.phase = if index < total {
            TransactionPhase::Checkpoint(index)
        } else {
            TransactionPhase::Commit
        };
    }

    fn enter_step(&mut self, index: usize)
        requires
            old(self)@.steps.len() <= usize::MAX,
            old(self)@.checkpoint matches Ok(statements) ==> statements.len() <= usize::MAX,
            index <= old(self)@.steps.len(),
            old(self).outcome is None,
        ensures
            final(self).wf(),
            final(self)@ == at_step(old(self)@, index as int),
    {
        assert(self@.steps.len() == self.steps@.len());
        if index < self.steps.len() {
            self.phase = TransactionPhase::Step(index);
            return;
        }
        let failed = match &self.checkpoint {
            Ok(_) => false,
            Err(_) => true,
        };
        if failed {
            self.phase = TransactionPhase::Rollback;
            self.outcome = match &self.checkpoint {
                Ok(_) => None,
                Err(error) => Some(clone_error(error)),
            };
        } else {
            self.enter_checkpoint(0);
        }
    }

    fn end(&mut self)
        requires
            old(self)@.steps.len() <= usize::MAX,
            old(self)@.checkpoint matches Ok(statements) ==> statements.len() <= usize::MAX,
        ensures
            final(self).wf(),
            final(self)@ == ended(old(self)@),
    {
        self.phase = if self.staged {
            TransactionPhase::Cleanup
        } else {
            TransactionPhase::Done
        };
    }

    /// Takes in that the action succeeded. A staging table that was created is
    /// counted.
    pub fn succeeded(
        &mut self,
        batch: &PreparedDuckLakeTableBatch,
        hooks: &mut DuckLakeTestHooks,
    )
        requires
            old(self).wf(),
        ensures
            final(self).wf(),
            final(self)@ == after_success(old(self)@),
            final(hooks)@ == hooks_after_success(
                old(self)@,
                table_id(batch@.table),
                old(hooks)@,
            ),
    {
        match self.phase {
            TransactionPhase::Begin => self.enter_step(0),
            TransactionPhase::Step(index) => {
                assert(self@.steps[index as int] == self.steps@[index as int]@);
                let creates = match &self.steps[index] {
                    BatchStep::CreateStaging(_) => true,
                    _ => false,
                };
                if creates {
                    self.staged = true;
                    record_staging_table_creation(hooks, &batch.table_name);
                }
                self.enter_step(index + 1);
            },
            TransactionPhase::Checkpoint(index) => self.enter_checkpoint(index + 1),
            TransactionPhase::Commit => self.end(),
            TransactionPhase::Rollback => self.end(),
            TransactionPhase::Cleanup => {
                self.phase = TransactionPhase::Done;
            },
            TransactionPhase::Done => {},
        }
    }

    /// Takes in that the action failed.
    pub fn failed(&mut self, error: EtlError)
        requires
            old(self).wf(),
        ensures
            final(self).wf(),
            final(self)@ == after_failure(old(self)@, error@),
    {
        match self.phase {
            TransactionPhase::Begin => {
                self.phase = TransactionPhase::Done;
                self.outcome = Some(error);
            },
            TransactionPhase::Step(_) => {
                self.phase = TransactionPhase::Rollback;
                self.outcome = Some(error);
            },
            TransactionPhase::Checkpoint(_) => {
                self.phase = TransactionPhase::Rollback;
                self.outcome = Some(error);
            },
            TransactionPhase::Commit => {
                self.outcome = Some(error);
                self.end();
            },
            TransactionPhase::Rollback => self.end(),
            TransactionPhase::Cleanup => {
                self.phase = TransactionPhase::Done;
            },
            TransactionPhase::Done => {},
        }
    }

    /// Returns how the batch ended.
    pub fn into_result(self) -> (r: Result<(), EtlError>)
        ensures
            match r {
                Ok(_) => self@.outcome is None,
                Err(error) => self@.outcome == Some(error@),
            },
    {
        match self.outcome {
            None => Ok(()),
            Some(error) => Err(error),
        }
    }
}

/// Ends the application of a batch: a batch that was applied still fails where a
/// failure after its commit was armed.
pub fn finish_batch(
    transaction: BatchTransaction,
    batch: &PreparedDuckLakeTableBatch,
    hooks: &mut DuckLakeTestHooks,
) -> (r: Result<(), EtlError>)
    ensures
        match transaction@.outcome {
            Some(error) => r matches Err(e) && e@ == error && final(hooks)@ == old(hooks)@,
            None => if armed_table(old(hooks)@, batch.batch_kind) == Some(table_id(batch@.table)) {
                &&& r matches Err(e) && e@ == injected_failure(batch.batch_kind)
                &&& final(hooks)@ == disarmed(old(hooks)@, batch.batch_kind)
            } else {
                r is Ok && final(hooks)@ == old(hooks)@
            },
        },
{
    match transaction.into_result() {
        Err(error) => Err(error),
        Ok(()) => maybe_fail_after_committed_batch_for_tests(
            hooks,
            batch.batch_kind,
            &batch.table_name,
        ),
    }
}

/// The transaction once the host reported how its actions went, in order:
/// nothing for a success, the error for a failure.
pub open spec fn driven(run: TransactionView, outcomes: Seq<Option<ErrorView>>) -> TransactionView
    decreases outcomes.len(),
{
    if outcomes.len() == 0 {
        run
    } else {
        let before = driven(run, outcomes.drop_last());
        match outcomes.last() {
            None => after_success(before),
            Some(error) => after_failure(before, error),
        }
    }
}

/// The phase a transaction is in after `count` successes.
pub open spec fn phase_after(steps: nat, written: nat, count: nat) -> TransactionPhase {
    if count == 0 {
        TransactionPhase::Begin
    } else if count <= steps {
        TransactionPhase::Step((count - 1) as usize)
    } else if count <= steps + written {
        TransactionPhase::Checkpoint((count - 1 - steps) as usize)
    } else {
        TransactionPhase::Commit
    }
}

/// Whether the transaction may still commit.
pub open spec fn may_commit(phase: TransactionPhase) -> bool {
    phase is Begin || phase is Step || phase is Checkpoint || phase is Commit
}

/// While a transaction may still commit, nothing failed, and its phase tells how
/// many actions succeeded. Its steps and checkpoint never change.
proof fn lemma_driven(run: TransactionView, outcomes: Seq<Option<ErrorView>>)
    requires
        run.phase is Begin,
        run.outcome is None,
        run.steps.len() <= usize::MAX,
        run.checkpoint matches Ok(statements) ==> statements.len() <= usize::MAX,
    ensures
        driven(run, outcomes).steps == run.steps,
        driven(run, outcomes).checkpoint == run.checkpoint,
        may_commit(driven(run, outcomes).phase) ==> {
            let written = run.checkpoint->Ok_0.len();
            &&& outcomes.len() > run.steps.len() ==> run.checkpoint is Ok && outcomes.len()
                <= run.steps.len() + written + 1
            &&& driven(run, outcomes).phase == phase_after(
                run.steps.len(),
                written,
                outcomes.len(),
            )
            &&& driven(run, outcomes).outcome is None
            &&& forall|i: int| 0 <= i < outcomes.len() ==> (#[trigger] outcomes[i]) is None
        },
    decreases outcomes.len(),
{
    if outcomes.len() > 0 {
        let earlier = outcomes.drop_last();
        lemma_driven(run, earlier);
        let before = driven(run, earlier);
        if may_commit(driven(run, outcomes).phase) {
            assert(may_commit(before.phase));
            assert(outcomes.last() is None);
            assert forall|i: int| 0 <= i < outcomes.len() implies (#[trigger] outcomes[i]) is None by {
                if i < earlier.len() {
                    assert(earlier[i] == outcomes[i]);
                }
            }
        }
    }
}

/// A transaction is committed only after it was begun, every step of the batch
/// ran and every statement of the checkpoint was written, in order and all of them
/// successfully.
pub proof fn law_commit_follows_every_step(
    progress: Seq<char>,
    batch: BatchView,
    outcomes: Seq<Option<ErrorView>>,
)
    requires
        batch_steps(batch).len() <= usize::MAX,
        next_action(driven(fresh_transaction(progress, batch), outcomes)) is Commit,
    ensures
        batch_checkpoint(progress, batch) is Ok,
        outcomes.len() == batch_steps(batch).len() + batch_checkpoint(progress, batch)->Ok_0.len()
            + 1,
        forall|i: int| 0 <= i < outcomes.len() ==> (#[trigger] outcomes[i]) is None,
        next_action(driven(fresh_transaction(progress, batch), outcomes.take(0))) is Begin,
        forall|i: int|
            0 <= i < batch_steps(batch).len() ==> #[trigger] next_action(
                driven(fresh_transaction(progress, batch), outcomes.take(i + 1)),
            ) == TransactionActionView::Step(batch_steps(batch)[i]),
        forall|i: int|
            0 <= i < batch_checkpoint(progress, batch)->Ok_0.len() ==> next_action(
                driven(
                    fresh_transaction(progress, batch),
                    #[trigger] outcomes.take(batch_steps(batch).len() + i + 1),
                ),
            ) == TransactionActionView::Checkpoint(batch_checkpoint(progress, batch)->Ok_0[i]),
{
    let run = fresh_transaction(progress, batch);
    let steps = batch_steps(batch);
    lemma_checkpoint_length(progress, batch);
    lemma_driven(run, outcomes);
    assert(may_commit(driven(run, outcomes).phase));
    assert(outcomes.len() > steps.len());
    let written = batch_checkpoint(progress, batch)->Ok_0;
    assert forall|k: int| 0 <= k < outcomes.len() implies {
        &&& may_commit((#[trigger] driven(run, outcomes.take(k))).phase)
        &&& driven(run, outcomes.take(k)).phase == phase_after(
            steps.len(),
            written.len(),
            k as nat,
        )
    } by {
        lemma_may_commit_before(run, outcomes, k);
        lemma_driven(run, outcomes.take(k));
    }
    assert forall|i: int| 0 <= i < steps.len() implies #[trigger] next_action(
        driven(run, outcomes.take(i + 1)),
    ) == TransactionActionView::Step(steps[i]) by {
        lemma_driven(run, outcomes.take(i + 1));
        assert(driven(run, outcomes.take(i + 1)).phase == phase_after(
            steps.len(),
            written.len(),
            (i + 1) as nat,
        ));
    }
    assert forall|i: int| 0 <= i < written.len() implies next_action(
        driven(run, #[trigger] outcomes.take(steps.len() + i + 1)),
    ) == TransactionActionView::Checkpoint(written[i]) by {
        let count = steps.len() + i + 1;
        lemma_driven(run, outcomes.take(count));
        assert(driven(run, outcomes.take(count)).phase == phase_after(
            steps.len(),
            written.len(),
            count as nat,
        ));
    }
    assert(driven(run, outcomes.take(0)).phase is Begin);
}

/// A checkpoint has one statement or two.
proof fn lemma_checkpoint_length(progress: Seq<char>, batch: BatchView)
    ensures
        batch_checkpoint(progress, batch) matches Ok(statements) ==> 1 <= statements.len() <= 2,
{
}

proof fn lemma_may_commit_before(
    run: TransactionView,
    outcomes: Seq<Option<ErrorView>>,
    count: int,
)
    requires
        0 <= count <= outcomes.len(),
        may_commit(driven(run, outcomes).phase),
    ensures
        may_commit(driven(run, outcomes.take(count)).phase),
    decreases outcomes.len(),
{
    if count == outcomes.len() {
        assert(outcomes.take(count) =~= outcomes);
    } else {
        let earlier = outcomes.drop_last();
        assert(may_commit(driven(run, earlier).phase));
        assert(earlier.take(count) =~= outcomes.take(count));
        lemma_may_commit_before(run, earlier, count);
    }
}

/// A batch that failed before its commit is rolled back and never committed,
/// and the error it reports is that failure, whatever rollback and cleanup do.
pub proof fn law_failed_batch_is_rolled_back(
    run: TransactionView,
    error: ErrorView,
    later: Seq<Option<ErrorView>>,
)
    requires
        run.phase is Step || run.phase is Checkpoint,
    ensures
        next_action(after_failure(run, error)) is Rollback,
        !may_commit(driven(after_failure(run, error), later).phase),
        driven(after_failure(run, error), later).outcome == Some(error),
        later.len() >= 2 ==> driven(after_failure(run, error), later).phase is Done,
    decreases later.len(),
{
    let start = after_failure(run, error);
    if later.len() > 0 {
        law_failed_batch_is_rolled_back(run, error, later.drop_last());
        if later.len() == 2 {
            law_failed_batch_is_rolled_back(run, error, later.drop_last().drop_last());
            assert(driven(start, later.drop_last().drop_last()).phase is Rollback);
        }
        lemma_rollback_first(start, later.drop_last());
    }
}

/// After the first outcome a rolled back transaction is cleaned up or done.
proof fn lemma_rollback_first(run: TransactionView, later: Seq<Option<ErrorView>>)
    requires
        run.phase is Rollback,
    ensures
        later.len() == 0 ==> driven(run, later).phase is Rollback,
        later.len() == 1 ==> driven(run, later).phase is Cleanup || driven(run, later).phase is Done,
        later.len() >= 2 ==> driven(run, later).phase is Done,
    decreases later.len(),
{
    if later.len() > 0 {
        lemma_rollback_first(run, later.drop_last());
    }
}

/// A batch that is reported applied was committed.
pub proof fn law_applied_batch_was_committed(
    progress: Seq<char>,
    batch: BatchView,
    outcomes: Seq<Option<ErrorView>>,
)
    requires
        batch_steps(batch).len() <= usize::MAX,
        driven(fresh_transaction(progress, batch), outcomes).phase is Done,
        driven(fresh_transaction(progress, batch), outcomes).outcome is None,
    ensures
        exists|k: int|
            0 <= k < outcomes.len() && next_action(
                driven(fresh_transaction(progress, batch), #[trigger] outcomes.take(k)),
            ) is Commit && outcomes[k] is None,
{
    let run = fresh_transaction(progress, batch);
    lemma_checkpoint_length(progress, batch);
    lemma_ended_well(run, outcomes);
}

proof fn lemma_ended_well(run: TransactionView, outcomes: Seq<Option<ErrorView>>)
    requires
        run.phase is Begin,
        run.outcome is None,
        run.steps.len() <= usize::MAX,
        run.checkpoint matches Ok(statements) ==> statements.len() <= usize::MAX,
        !may_commit(driven(run, outcomes).phase),
        driven(run, outcomes).outcome is None,
    ensures
        !(driven(run, outcomes).phase is Rollback),
        exists|k: int|
            0 <= k < outcomes.len() && next_action(
                driven(run, #[trigger] outcomes.take(k)),
            ) is Commit && outcomes[k] is None,
    decreases outcomes.len(),
{
    if outcomes.len() > 0 {
        let earlier = outcomes.drop_last();
        let before = driven(run, earlier);
        let last = outcomes.len() - 1;
        assert(outcomes.take(last) =~= earlier);
        lemma_driven(run, earlier);
        if may_commit(before.phase) {
            assert(before.phase is Commit && outcomes.last() is None);
            assert(next_action(driven(run, outcomes.take(last))) is Commit);
        } else {
            lemma_ended_well(run, earlier);
            let k = choose|k: int|
                0 <= k < earlier.len() && next_action(
                    driven(run, #[trigger] earlier.take(k)),
                ) is Commit && earlier[k] is None;
            assert(outcomes.take(k) =~= earlier.take(k));
            assert(outcomes[k] == earlier[k]);
        }
    }
}

/// The hooks once the host reported how its actions went, in order.
pub open spec fn hooks_driven(
    run: TransactionView,
    table: Seq<char>,
    hooks: HooksView,
    outcomes: Seq<Option<ErrorView>>,
) -> HooksView
    decreases outcomes.len(),
{
    if outcomes.len() == 0 {
        hooks
    } else {
        let earlier = hooks_driven(run, table, hooks, outcomes.drop_last());
        match outcomes.last() {
            None => hooks_after_success(driven(run, outcomes.drop_last()), table, earlier),
            Some(_) => earlier,
        }
    }
}

/// How many staging tables were created: the creations among the actions that
/// succeeded.
pub open spec fn staging_created(run: TransactionView, outcomes: Seq<Option<ErrorView>>) -> nat
    decreases outcomes.len(),
{
    if outcomes.len() == 0 {
        0
    } else {
        let earlier = staging_created(run, outcomes.drop_last());
        if outcomes.last() is None && creates_staging(driven(run, outcomes.drop_last())) {
            earlier + 1
        } else {
            earlier
        }
    }
}

/// The count of a table grows by the staging tables that were created for it: a
/// creation that failed is not counted, and neither are those of other tables.
/// Nothing is armed or disarmed by counting.
pub proof fn law_created_staging_tables_are_counted(
    run: TransactionView,
    table: Seq<char>,
    other: Seq<char>,
    hooks: HooksView,
    outcomes: Seq<Option<ErrorView>>,
)
    requires
        creations(hooks, table) + staging_created(run, outcomes) <= usize::MAX,
    ensures
        hooks_driven(run, table, hooks, outcomes) == counted_all(
            hooks,
            Seq::new(staging_created(run, outcomes), |i: int| table),
        ),
        creations(hooks_driven(run, table, hooks, outcomes), table) == creations(hooks, table)
            + staging_created(run, outcomes),
        other != table ==> creations(hooks_driven(run, table, hooks, outcomes), other)
            == creations(hooks, other),
        hooks_driven(run, table, hooks, outcomes).fail_after_atomic == hooks.fail_after_atomic,
        hooks_driven(run, table, hooks, outcomes).fail_after_copy == hooks.fail_after_copy,
    decreases outcomes.len(),
{
    if outcomes.len() > 0 {
        let earlier = outcomes.drop_last();
        law_created_staging_tables_are_counted(run, table, other, hooks, earlier);
        let before = Seq::new(staging_created(run, earlier), |i: int| table);
        let after = Seq::new(staging_created(run, outcomes), |i: int| table);
        if after.len() > before.len() {
            assert(after.drop_last() =~= before);
        } else {
            assert(after =~= before);
        }
    }
}

/// How many rows a prepared mutation appends.
pub open spec fn rows_to_append(prepared: PreparedTableMutation) -> nat {
    match prepared {
        PreparedTableMutation::Upsert(PreparedRows::Appender(rows)) => rows@.len(),
        PreparedTableMutation::Upsert(PreparedRows::ArrowRecordBatch(rows)) => rows@.len(),
        PreparedTableMutation::Upsert(PreparedRows::SqlLiterals(rows)) => rows@.len(),
        _ => 0,
    }
}

/// Whether a mutation in front of an operation appends rows.
pub open spec fn appended_before(prepared: Seq<PreparedTableMutation>, operation: int) -> bool {
    exists|k: int| 0 <= k < operation && rows_to_append(#[trigger] prepared[k]) > 0
}

/// The steps of one prepared mutation: rows are staged, in a staging table that is
/// created by the first mutation that appends rows and emptied by every later one, and
/// inserted from it; identities are deleted by their key set where there is one and by
/// their predicates otherwise; and assignments update. A mutation that has nothing to
/// append, or nothing to assign, has no steps.
pub open spec fn own_steps(
    staging: StagingView,
    prepared: PreparedTableMutation,
    operation: int,
    staged_before: bool,
    steps: Seq<StepView>,
) -> bool {
    match prepared {
        PreparedTableMutation::Upsert(rows) => if rows_to_append(prepared) == 0 {
            steps.len() == 0
        } else {
            &&& steps.len() >= 2
            &&& if staged_before {
                steps[0] matches StepView::Execute(clear) && clear.sql == "truncate table "@
                    + quoted(staging.staging_name) + ";"@
            } else {
                steps[0] matches StepView::CreateStaging(create) && create.sql
                    == create_staging_statement(staging).sql
            }
            &&& steps.last() matches StepView::Execute(insert) && insert.sql
                == insert_staged_statement(staging).sql
            &&& match rows {
                PreparedRows::SqlLiterals(tuples) => {
                    let load = literal_statements(staging, texts(tuples@));
                    &&& steps.len() == load.len() + 2
                    &&& forall|i: int|
                        0 <= i < load.len() ==> steps[i + 1] == StepView::Execute(
                            #[trigger] load[i],
                        )
                },
                _ => steps.len() == 3 && steps[1] == (StepView::Append { operation }),
            }
        },
        PreparedTableMutation::Delete { predicates, key_set: None, .. } => {
            let deletes = delete_statements(staging.table, texts(predicates@));
            &&& steps.len() == deletes.len()
            &&& forall|i: int|
                0 <= i < deletes.len() ==> steps[i] == StepView::Execute(#[trigger] deletes[i])
        },
        PreparedTableMutation::Delete { key_set: Some(key_set), .. } => steps.len() == 1 && (
        steps[0] matches StepView::Execute(delete) && delete.sensitive && delete.sql
            == "DELETE FROM "@ + lake_table(staging.table) + " AS cdc_target "@ + key_set@),
        PreparedTableMutation::Update { assignments, predicate } => if assignments@.len() == 0 {
            steps.len() == 0
        } else {
            steps.len() == 1 && (steps[0] matches StepView::Execute(update) && update.sensitive
                && update.sql == "UPDATE "@ + lake_table(staging.table) + " SET "@ + joined(
                texts(assignments@),
                ", "@,
            ) + " WHERE "@ + predicate@ + ";"@)
        },
    }
}

proof fn lemma_own_steps(
    staging: StagingView,
    prepared: PreparedTableMutation,
    operation: int,
    staged_before: bool,
)
    ensures
        own_steps(
            staging,
            prepared,
            operation,
            staged_before,
            operation_steps(staging, prepared@, operation, staged_before),
        ),
{
    let steps = operation_steps(staging, prepared@, operation, staged_before);
    match prepared {
        PreparedTableMutation::Upsert(rows) => {
            assert(payload_rows(rows@) == rows_to_append(prepared));
            if rows_to_append(prepared) > 0 {
                let load = load_steps(staging, rows@, operation);
                assert(steps.len() == load.len() + 2);
                assert(steps.last() == steps[steps.len() - 1]);
                match rows {
                    PreparedRows::SqlLiterals(tuples) => {
                        let statements = literal_statements(staging, texts(tuples@));
                        assert forall|i: int| 0 <= i < statements.len() implies steps[i + 1]
                            == StepView::Execute(#[trigger] statements[i]) by {
                            assert(steps[i + 1] == load[i]);
                        }
                    },
                    _ => {
                        assert(load.len() == 1);
                        assert(steps[1] == load[0]);
                    },
                }
            }
        },
        PreparedTableMutation::Delete { .. } => {},
        PreparedTableMutation::Update { assignments, .. } => {
            assert(texts(assignments@).len() == assignments@.len());
        },
    }
}

/// A batch runs the steps of its mutations in order: the steps of one more mutation stand
/// behind those of the earlier ones, and no other steps run. A truncate runs one statement.
pub proof fn law_batch_runs_its_mutations_in_order(
    batch: PreparedDuckLakeTableBatch,
    operation: int,
)
    ensures
        batch.action is Truncate ==> batch_steps(batch@).len() == 1 && (batch_steps(batch@)[0]
            matches StepView::Execute(truncate) && truncate.sql == "TRUNCATE TABLE "@ + lake_table(
            batch.table_name@,
        ) + ";"@),
        batch.action matches PreparedDuckLakeTableBatchAction::Mutation(prepared) ==> {
            let staging = fresh_staging(batch.table_name@, texts(batch.insert_column_names@));
            let views = prepared_views(prepared@);
            &&& batch_steps(batch@) == operations_steps(staging, views, prepared@.len())
            &&& operations_steps(staging, views, 0).len() == 0
            &&& 0 <= operation < prepared@.len() ==> exists|own: Seq<StepView>|
                {
                    &&& operations_steps(staging, views, (operation + 1) as nat)
                        == operations_steps(staging, views, operation as nat) + own
                    &&& #[trigger] own_steps(
                        staging,
                        prepared@[operation],
                        operation,
                        appended_before(prepared@, operation),
                        own,
                    )
                }
        },
{
    if batch.action is Mutation && 0 <= operation < batch.action->Mutation_0@.len() {
        let prepared = batch.action->Mutation_0;
        let views = prepared_views(prepared@);
        let staging = fresh_staging(batch.table_name@, texts(batch.insert_column_names@));
        let before = uses_staging(views, operation);
        let staged_before = appended_before(prepared@, operation);
        assert(before == staged_before) by {
            if before {
                let k = choose|k: int|
                    0 <= k < operation && (#[trigger] views[k] matches PreparedView::Upsert(rows)
                        && payload_rows(rows) > 0);
                assert(views[k] == prepared@[k]@);
                assert(rows_to_append(prepared@[k]) > 0);
            }
            if staged_before {
                let k = choose|k: int|
                    0 <= k < operation && rows_to_append(#[trigger] prepared@[k]) > 0;
                assert(views[k] == prepared@[k]@);
            }
        }
        assert(views[operation] == prepared@[operation]@);
        lemma_own_steps(staging, prepared@[operation], operation, before);
        let own = operation_steps(staging, views[operation], operation, before);
        assert(operations_steps(staging, views, (operation + 1) as nat) == operations_steps(
            staging,
            views,
            operation as nat,
        ) + own);
        assert(own_steps(staging, prepared@[operation], operation, staged_before, own));
    }
}

/// A batch that goes by the watermark is checkpointed by its last position, for its own
/// table and epoch, and fails without one; any other batch is checkpointed by its marker.
pub proof fn law_checkpoint_records_the_batch(
    progress: Seq<char>,
    batch: PreparedDuckLakeTableBatch,
)
    ensures
        batch.batch_kind is Mutation || batch.batch_kind is Truncate ==> match (
            batch.last_sequence_key,
            batch_checkpoint(progress, batch@),
        ) {
            (Some(key), Ok(statements)) => statements == progress_statements(
                progress,
                batch.table_name@,
                batch.replay_epoch@,
                key,
            ),
            (None, Err(_)) => true,
            _ => false,
        },
        batch.batch_kind is Copy || batch.batch_kind is CopyComplete ==> (batch_checkpoint(
            progress,
            batch@,
        ) matches Ok(statements) && statements.len() == 1 && statements[0] == marker_statement(
            batch.table_name@,
            batch.replay_epoch@,
            batch.batch_id@,
            (PreparedDuckLakeBatchMarker {
                batch_kind: batch.batch_kind,
                first_start_lsn: batch.first_start_lsn,
                last_commit_lsn: batch.last_commit_lsn,
            }),
        )),
{
}

/// How a transaction ends: a failed begin ends it at once, a failed step or checkpoint, or
/// a checkpoint that cannot be made, rolls it back, and a commit, failed or not, is never
/// rolled back. Behind a commit or a rollback the staging table is dropped exactly where it
/// was created, and whether that, or the rollback, fails changes nothing of the outcome,
/// which is the first failure.
pub proof fn law_transactions_end_as_they_went(
    run: TransactionView,
    index: usize,
    error: ErrorView,
)
    ensures
        ({
            let behind = if run.staged {
                TransactionPhase::Cleanup
            } else {
                TransactionPhase::Done
            };
            &&& run.phase is Begin ==> after_failure(run, error).phase is Done && after_failure(
                run,
                error,
            ).outcome == Some(error)
            &&& run.phase is Step || run.phase is Checkpoint ==> after_failure(
                run,
                error,
            ).phase is Rollback && after_failure(run, error).outcome == Some(error)
            &&& run.phase is Commit ==> {
                &&& after_failure(run, error).phase == behind
                &&& after_failure(run, error).outcome == Some(error)
                &&& after_success(run).phase == behind
                &&& after_success(run).outcome == run.outcome
            }
            &&& run.phase is Rollback ==> {
                &&& after_failure(run, error).phase == behind
                &&& after_success(run).phase == behind
                &&& after_failure(run, error).outcome == run.outcome
                &&& after_success(run).outcome == run.outcome
            }
            &&& run.phase is Cleanup || run.phase is Done ==> {
                &&& after_failure(run, error).phase is Done && after_success(run).phase is Done
                &&& after_failure(run, error).outcome == run.outcome
                &&& after_success(run).outcome == run.outcome
            }
            &&& run.phase == TransactionPhase::Step(index) ==> after_success(run).staged == (
            run.staged || run.steps[index as int] is CreateStaging)
            &&& !(run.phase is Step) ==> after_success(run).staged == run.staged
            &&& after_failure(run, error).staged == run.staged
            &&& run.phase == TransactionPhase::Step(index) && index + 1 >= run.steps.len() ==> (
            run.checkpoint matches Err(missing) ==> after_success(run).phase is Rollback
                && after_success(run).outcome == Some(missing))
            &&& run.phase == TransactionPhase::Step(index) && index + 1 < run.steps.len()
                ==> after_success(run).phase == TransactionPhase::Step((index + 1) as usize)
            &&& after_success(run).steps == run.steps && after_failure(run, error).steps
                == run.steps
            &&& after_success(run).checkpoint == run.checkpoint && after_failure(
                run,
                error,
            ).checkpoint == run.checkpoint
            &&& after_success(run).cleanup == run.cleanup && after_failure(run, error).cleanup
                == run.cleanup
        }),
{
}

/// A transaction starts with its batch: its steps and its checkpoint are those of the
/// batch, what is cleaned up is the staging table of the batch, and nothing is staged yet.
pub proof fn law_transactions_start_with_their_batch(
    progress: Seq<char>,
    batch: PreparedDuckLakeTableBatch,
)
    ensures
        ({
            let run = fresh_transaction(progress, batch@);
            &&& run.phase is Begin && run.outcome is None && !run.staged
            &&& run.steps == batch_steps(batch@)
            &&& run.checkpoint == batch_checkpoint(progress, batch@)
            &&& run.cleanup.sql == "drop table if exists "@ + quoted(
                "__staging_"@ + (batch.table_name.schema@ + "."@ + batch.table_name.table@),
            )
            &&& begin_statement().sql == "BEGIN TRANSACTION"@
            &&& commit_statement().sql == "COMMIT"@
        }),
{
}

} // verus!
