//! Replay of prepared batches against a table's streaming watermark.

use vstd::prelude::*;

use crate::batch_kind::DuckLakeTableBatchKind;
use crate::batches::{batch_views, is_streaming, BatchView, PreparedDuckLakeTableBatch};
use crate::error::{detailed_error, ErrorKind, ErrorView, EtlError};
use crate::schema::table_id;
use crate::sequence::{
    compare_sequence_keys, format_sequence_key, key_before, law_keys_are_ordered_by_their_numbers,
    position, sequence_key_text, EventSequenceKey, PgLsn,
};
use crate::transaction::missing_last_key_error;

verus! {

/// The streaming watermark of one table.
#[derive(Clone, Copy, Debug, PartialEq, Eq, Structural)]
pub struct TableStreamingProgress {
    pub last_sequence_key: EventSequenceKey,
}

/// The frontier that the row of a watermark query stands for: its commit position
/// and its ordinal in that commit.
pub open spec fn row_progress(row: Option<(u64, u64)>) -> Option<TableStreamingProgress> {
    match row {
        None => None,
        Some((commit_lsn, tx_ordinal)) => Some(
            TableStreamingProgress {
                last_sequence_key: EventSequenceKey { commit_lsn: PgLsn(commit_lsn), tx_ordinal },
            },
        ),
    }
}

/// Reads a frontier from the row that one watermark query found.
pub fn progress_from_row(row: Option<(u64, u64)>) -> (r: Option<TableStreamingProgress>)
    ensures
        r == row_progress(row),
{
    match row {
        None => None,
        Some((commit_lsn, tx_ordinal)) => Some(
            TableStreamingProgress {
                last_sequence_key: EventSequenceKey { commit_lsn: PgLsn(commit_lsn), tx_ordinal },
            },
        ),
    }
}

/// The later of two frontiers.
pub open spec fn later_of(
    own: Option<TableStreamingProgress>,
    shared: Option<TableStreamingProgress>,
) -> Option<TableStreamingProgress> {
    match (own, shared) {
        (None, _) => shared,
        (_, None) => own,
        (Some(left), Some(right)) => if key_before(
            left.last_sequence_key,
            right.last_sequence_key,
        ) {
            shared
        } else {
            own
        },
    }
}

/// Returns the later of two frontiers.
pub fn later_progress(
    own: Option<TableStreamingProgress>,
    shared: Option<TableStreamingProgress>,
) -> (r: Option<TableStreamingProgress>)
    ensures
        r == later_of(own, shared),
        r is None <==> own is None && shared is None,
        r is Some ==> r == own || r == shared,
        own is Some ==> !key_before(r->0.last_sequence_key, own->0.last_sequence_key),
        shared is Some ==> !key_before(r->0.last_sequence_key, shared->0.last_sequence_key),
{
    match (own, shared) {
        (None, _) => shared,
        (_, None) => own,
        (Some(left), Some(right)) => if is_before(
            left.last_sequence_key,
            right.last_sequence_key,
        ) {
            shared
        } else {
            own
        },
    }
}

/// The latest of the frontiers that were read.
pub open spec fn latest_of(reads: Seq<Option<TableStreamingProgress>>) -> Option<
    TableStreamingProgress,
>
    decreases reads.len(),
{
    if reads.len() == 0 {
        None
    } else {
        later_of(latest_of(reads.drop_last()), reads.last())
    }
}

/// The frontiers that rows of watermark queries stand for.
pub open spec fn row_reads(rows: Seq<Option<(u64, u64)>>) -> Seq<Option<TableStreamingProgress>> {
    rows.map_values(|row: Option<(u64, u64)>| row_progress(row))
}

/// Reads a table's frontier from the rows that the watermark queries of the
/// progress tables found: the latest of them.
pub fn progress_from_rows(rows: &Vec<Option<(u64, u64)>>) -> (r: Option<TableStreamingProgress>)
    ensures
        r == latest_of(row_reads(rows@)),
        r is None <==> forall|i: int| 0 <= i < rows@.len() ==> (#[trigger] rows@[i]) is None,
        r is Some ==> row_reads(rows@).contains(r),
        forall|i: int|
            0 <= i < rows@.len() && (#[trigger] rows@[i]) is Some ==> !key_before(
                r->0.last_sequence_key,
                row_progress(rows@[i])->0.last_sequence_key,
            ),
{
    let ghost reads = row_reads(rows@);
    let mut latest: Option<TableStreamingProgress> = None;
    for i in 0..rows.len()
        invariant
            reads == row_reads(rows@),
            latest == latest_of(reads.take(i as int)),
    {
        assert(reads.take(i + 1).drop_last() =~= reads.take(i as int));
        assert(reads.take(i + 1).last() == row_progress(rows@[i as int]));
        latest = later_progress(latest, progress_from_row(rows[i]));
    }
    proof {
        assert(reads.take(reads.len() as int) =~= reads);
        law_latest_frontier_is_greatest(reads);
        assert forall|i: int| 0 <= i < rows@.len() implies (#[trigger] rows@[i]) is Some
            == reads[i] is Some by {
            assert(reads[i] == row_progress(rows@[i]));
        }
        if latest is None {
            assert forall|i: int| 0 <= i < rows@.len() implies (#[trigger] rows@[i]) is None by {
                assert(reads[i] is None);
            }
        } else {
            let k = choose|k: int| 0 <= k < reads.len() && reads[k] == latest;
            assert(rows@[k] is Some);
        }
        assert forall|i: int| 0 <= i < rows@.len() && (#[trigger] rows@[i]) is Some
            implies !key_before(
            latest->0.last_sequence_key,
            row_progress(rows@[i])->0.last_sequence_key,
        ) by {
            assert(reads[i] is Some);
        }
    }
    latest
}

/// The latest of several frontiers is one of them, none of them comes after it,
/// and there is none exactly when none was read.
pub proof fn law_latest_frontier_is_greatest(reads: Seq<Option<TableStreamingProgress>>)
    ensures
        latest_of(reads) is None <==> forall|i: int|
            0 <= i < reads.len() ==> (#[trigger] reads[i]) is None,
        latest_of(reads) is Some ==> reads.contains(latest_of(reads)),
        forall|i: int|
            0 <= i < reads.len() && (#[trigger] reads[i]) is Some ==> !key_before(
                latest_of(reads)->0.last_sequence_key,
                reads[i]->0.last_sequence_key,
            ),
    decreases reads.len(),
{
    if reads.len() > 0 {
        let earlier = reads.drop_last();
        law_latest_frontier_is_greatest(earlier);
        assert(reads[reads.len() - 1] == reads.last());
        assert forall|i: int| 0 <= i < earlier.len() implies #[trigger] earlier[i] == reads[i] by {}
        if latest_of(earlier) is Some {
            let k = choose|k: int| 0 <= k < earlier.len() && earlier[k] == latest_of(earlier);
            assert(reads[k] == latest_of(earlier));
        }
        if latest_of(reads) is None {
            assert forall|i: int| 0 <= i < reads.len() implies (#[trigger] reads[i]) is None by {
                if i < earlier.len() {
                    assert(earlier[i] is None);
                }
            }
        } else {
            assert(!(forall|i: int| 0 <= i < reads.len() ==> (#[trigger] reads[i]) is None));
        }
        assert forall|i: int| 0 <= i < reads.len() && (#[trigger] reads[i]) is Some
            implies !key_before(
            latest_of(reads)->0.last_sequence_key,
            reads[i]->0.last_sequence_key,
        ) by {
            if i < earlier.len() {
                assert(earlier[i] is Some);
            }
        }
    }
}

/// What replay does with a streaming batch.
#[derive(Clone, Copy, Debug, PartialEq, Eq, Structural)]
pub enum StreamingReplayDecision {
    /// The batch was committed already.
    Skip,
    /// The batch is still to be applied.
    Apply,
}

/// The error of a streaming batch without its first sequence key.
pub open spec fn missing_first_key_error(batch: BatchView) -> ErrorView {
    detailed_error(
        ErrorKind::InvalidState,
        "DuckLake streaming batch is missing its first sequence key"@,
        "table="@ + table_id(batch.table) + ", batch_kind="@ + batch.batch_kind.label(),
    )
}

/// The error of a watermark inside a batch that is committed as a whole.
pub open spec fn torn_batch_error(
    batch: BatchView,
    progress: EventSequenceKey,
    first: EventSequenceKey,
    last: EventSequenceKey,
) -> ErrorView {
    detailed_error(
        ErrorKind::InvalidState,
        "DuckLake streaming progress landed inside an atomic batch"@,
        "table="@ + table_id(batch.table) + ", progress="@ + sequence_key_text(progress)
            + ", first="@ + sequence_key_text(first) + ", last="@ + sequence_key_text(last),
    )
}

/// What replay does with a batch at a watermark: a batch that starts after the
/// watermark is applied, one that ends at or before it is skipped, and one that
/// the watermark lands inside is an error.
pub open spec fn replay_decision(progress: EventSequenceKey, batch: BatchView) -> Result<
    StreamingReplayDecision,
    ErrorView,
> {
    match (batch.first_sequence_key, batch.last_sequence_key) {
        (None, _) => Err(missing_first_key_error(batch)),
        (Some(_), None) => Err(missing_last_key_error(batch)),
        (Some(first), Some(last)) => if key_before(progress, first) {
            Ok(StreamingReplayDecision::Apply)
        } else if key_before(progress, last) {
            Err(torn_batch_error(batch, progress, first, last))
        } else {
            Ok(StreamingReplayDecision::Skip)
        },
    }
}

fn is_before(left: EventSequenceKey, right: EventSequenceKey) -> (r: bool)
    ensures
        r == key_before(left, right),
{
    match compare_sequence_keys(left, right) {
        core::cmp::Ordering::Less => true,
        _ => false,
    }
}

fn batch_context(batch: &PreparedDuckLakeTableBatch) -> (r: String)
    ensures
        r@ == "table="@ + table_id(batch@.table) + ", batch_kind="@ + batch@.batch_kind.label(),
{
    let mut detail = "table=".to_owned();
    detail.append(batch.table_name.id().as_str());
    detail.append(", batch_kind=");
    detail.append(batch.batch_kind.as_str());
    detail
}

/// Decides whether a streaming batch is applied or skipped.
pub fn streaming_replay_decision(
    progress: TableStreamingProgress,
    batch: &PreparedDuckLakeTableBatch,
) -> (r: Result<StreamingReplayDecision, EtlError>)
    ensures
        match r {
            Ok(decision) => replay_decision(progress.last_sequence_key, batch@) == Ok::<
                StreamingReplayDecision,
                ErrorView,
            >(decision),
            Err(error) => replay_decision(progress.last_sequence_key, batch@) == Err::<
                StreamingReplayDecision,
                ErrorView,
            >(error@),
        },
{
    let first = match batch.first_sequence_key {
        Some(first) => first,
        None => return Err(
            EtlError::with_detail(
                ErrorKind::InvalidState,
                "DuckLake streaming batch is missing its first sequence key",
                batch_context(batch),
            ),
        ),
    };
    let last = match batch.last_sequence_key {
        Some(last) => last,
        None => return Err(
            EtlError::with_detail(
                ErrorKind::InvalidState,
                "DuckLake streaming batch is missing its last sequence key",
                batch_context(batch),
            ),
        ),
    };
    if is_before(progress.last_sequence_key, first) {
        return Ok(StreamingReplayDecision::Apply);
    }
    if is_before(progress.last_sequence_key, last) {
        let mut detail = "table=".to_owned();
        detail.append(batch.table_name.id().as_str());
        detail.append(", progress=");
        detail.append(format_sequence_key(progress.last_sequence_key).as_str());
        detail.append(", first=");
        detail.append(format_sequence_key(first).as_str());
        detail.append(", last=");
        detail.append(format_sequence_key(last).as_str());
        return Err(
            EtlError::with_detail(
                ErrorKind::InvalidState,
                "DuckLake streaming progress landed inside an atomic batch",
                detail,
            ),
        );
    }
    Ok(StreamingReplayDecision::Skip)
}

/// The error a failed batch is reported as.
pub open spec fn batch_failure(batch: BatchView, cause: ErrorView) -> ErrorView {
    ErrorView {
        kind: ErrorKind::DestinationQueryFailed,
        description: "DuckLake atomic table batch failed"@,
        detail: Some(batch_failure_detail(batch)),
        driver: None,
        cause: Some(Box::new(cause)),
    }
}

/// What identifies a failed batch in errors.
pub open spec fn batch_failure_detail(batch: BatchView) -> Seq<char> {
    "table="@ + table_id(batch.table) + ", batch_id="@ + batch.batch_id + ", batch_kind="@
        + batch.batch_kind.label()
}

/// Formats what identifies a failed batch in errors.
pub fn format_batch_failure_detail(batch: &PreparedDuckLakeTableBatch) -> (r: String)
    ensures
        r@ == batch_failure_detail(batch@),
{
    let mut detail = "table=".to_owned();
    detail.append(batch.table_name.id().as_str());
    detail.append(", batch_id=");
    detail.append(batch.batch_id.as_str());
    detail.append(", batch_kind=");
    detail.append(batch.batch_kind.as_str());
    detail
}

fn wrap_batch_failure(batch: &PreparedDuckLakeTableBatch, cause: EtlError) -> (r: EtlError)
    ensures
        r@ == batch_failure(batch@, cause@),
{
    EtlError {
        kind: ErrorKind::DestinationQueryFailed,
        description: "DuckLake atomic table batch failed".to_owned(),
        detail: Some(format_batch_failure_detail(batch)),
        driver: None,
        cause: Some(Box::new(cause)),
    }
}

/// Where the application of prepared batches stands.
#[derive(Clone, Copy, Debug, PartialEq, Eq, Structural)]
pub enum ReplayPhase {
    /// The durable watermark is to be read.
    ReadProgress,
    /// The marker of that batch is to be looked up.
    FindMarker(usize),
    /// That batch is to be applied.
    Apply(usize),
    /// Nothing is left to do.
    Done,
}

/// The application of prepared batches of one table, in order, driven by the
/// host.
pub struct BatchReplay {
    phase: ReplayPhase,
    progress: Option<TableStreamingProgress>,
    skipped: Vec<usize>,
    wrap_failures: bool,
    outcome: Option<EtlError>,
}

/// Contents of a [`BatchReplay`].
pub struct ReplayView {
    pub phase: ReplayPhase,
    pub progress: Option<TableStreamingProgress>,
    pub skipped: Seq<usize>,
    pub wrap_failures: bool,
    pub outcome: Option<ErrorView>,
}

impl View for BatchReplay {
    type V = ReplayView;

    closed spec fn view(&self) -> ReplayView {
        ReplayView {
            phase: self.phase,
            progress: self.progress,
            skipped: self.skipped@,
            wrap_failures: self.wrap_failures,
            outcome: match self.outcome {
                None => None,
                Some(error) => Some(error@),
            },
        }
    }
}

/// The replay once batch `index` is the next one. A streaming batch that was
/// committed already is skipped; a copy batch is looked up by its marker.
pub open spec fn at_batch(batches: Seq<BatchView>, replay: ReplayView, index: int) -> ReplayView
    decreases batches.len() - index,
{
    if index < 0 || index >= batches.len() {
        ReplayView { phase: ReplayPhase::Done, ..replay }
    } else if !is_streaming(batches[index].batch_kind) {
        ReplayView { phase: ReplayPhase::FindMarker(index as usize), ..replay }
    } else {
        match replay.progress {
            None => ReplayView { phase: ReplayPhase::Apply(index as usize), ..replay },
            Some(progress) => match replay_decision(progress.last_sequence_key, batches[index]) {
                Err(error) => ReplayView {
                    phase: ReplayPhase::Done,
                    outcome: Some(error),
                    ..replay
                },
                Ok(StreamingReplayDecision::Apply) => ReplayView {
                    phase: ReplayPhase::Apply(index as usize),
                    ..replay
                },
                Ok(StreamingReplayDecision::Skip) => at_batch(
                    batches,
                    ReplayView { skipped: replay.skipped.push(index as usize), ..replay },
                    index + 1,
                ),
            },
        }
    }
}

/// The replay before anything was done. The durable watermark is read first
/// when the batches stream and it is not known.
pub open spec fn fresh_replay(
    batches: Seq<BatchView>,
    known: Option<TableStreamingProgress>,
    wrap_failures: bool,
) -> ReplayView {
    let start = ReplayView {
        phase: ReplayPhase::ReadProgress,
        progress: known,
        skipped: Seq::empty(),
        wrap_failures,
        outcome: None,
    };
    if batches.len() == 0 {
        ReplayView { phase: ReplayPhase::Done, ..start }
    } else if !is_streaming(batches[0].batch_kind) {
        at_batch(batches, ReplayView { progress: None, ..start }, 0)
    } else if known is Some {
        at_batch(batches, start, 0)
    } else {
        start
    }
}

/// The replay once the durable watermark was read.
pub open spec fn after_progress_read(
    batches: Seq<BatchView>,
    replay: ReplayView,
    progress: Option<TableStreamingProgress>,
) -> ReplayView {
    match replay.phase {
        ReplayPhase::ReadProgress => at_batch(batches, ReplayView { progress, ..replay }, 0),
        _ => replay,
    }
}

/// The replay once a marker was looked up: a batch with a marker is skipped.
pub open spec fn after_marker(
    batches: Seq<BatchView>,
    replay: ReplayView,
    already_applied: bool,
) -> ReplayView {
    match replay.phase {
        ReplayPhase::FindMarker(index) => if already_applied {
            at_batch(
                batches,
                ReplayView { skipped: replay.skipped.push(index), ..replay },
                index + 1,
            )
        } else {
            ReplayView { phase: ReplayPhase::Apply(index), ..replay }
        },
        _ => replay,
    }
}

/// The replay once a batch was applied: a streaming batch moves the watermark
/// to its last event.
pub open spec fn after_applied(batches: Seq<BatchView>, replay: ReplayView) -> ReplayView {
    match replay.phase {
        ReplayPhase::Apply(index) => at_batch(
            batches,
            ReplayView {
                progress: if is_streaming(batches[index as int].batch_kind) {
                    match batches[index as int].last_sequence_key {
                        None => None,
                        Some(last_sequence_key) => Some(
                            TableStreamingProgress { last_sequence_key },
                        ),
                    }
                } else {
                    replay.progress
                },
                ..replay
            },
            index + 1,
        ),
        _ => replay,
    }
}

/// The replay once an action failed.
pub open spec fn after_replay_failure(
    batches: Seq<BatchView>,
    replay: ReplayView,
    error: ErrorView,
) -> ReplayView {
    match replay.phase {
        ReplayPhase::Apply(index) => ReplayView {
            phase: ReplayPhase::Done,
            outcome: Some(
                if replay.wrap_failures {
                    batch_failure(batches[index as int], error)
                } else {
                    error
                },
            ),
            ..replay
        },
        ReplayPhase::Done => replay,
        _ => ReplayView { phase: ReplayPhase::Done, outcome: Some(error), ..replay },
    }
}

/// Whether an attempt at batches names the one that fails: copy batches are not.
pub open spec fn names_failures(batches: Seq<BatchView>) -> bool {
    batches.len() == 0 || !(batches[0].batch_kind is Copy)
}

/// The replay before anything was done, from a remembered frontier.
pub open spec fn remembered_replay(
    batches: Seq<BatchView>,
    frontier: Option<Option<EventSequenceKey>>,
) -> ReplayView {
    match frontier {
        None => fresh_replay(batches, None, names_failures(batches)),
        Some(Some(last_sequence_key)) => fresh_replay(
            batches,
            Some(TableStreamingProgress { last_sequence_key }),
            names_failures(batches),
        ),
        Some(None) => after_progress_read(
            batches,
            fresh_replay(batches, None, names_failures(batches)),
            None,
        ),
    }
}

/// A remembered frontier is not read again: an attempt that starts from one goes
/// straight to the batches.
pub proof fn law_remembered_frontier_is_not_read(
    batches: Seq<BatchView>,
    frontier: Option<Option<EventSequenceKey>>,
)
    requires
        frontier is Some,
    ensures
        !(remembered_replay(batches, frontier).phase is ReadProgress),
{
    let known = match frontier {
        Some(Some(last_sequence_key)) => Some(TableStreamingProgress { last_sequence_key }),
        _ => None,
    };
    let start = ReplayView {
        phase: ReplayPhase::ReadProgress,
        progress: known,
        skipped: Seq::empty(),
        wrap_failures: names_failures(batches),
        outcome: None,
    };
    lemma_batch_entered(batches, start, 0);
    lemma_batch_entered(batches, ReplayView { progress: None, ..start }, 0);
}

proof fn lemma_batch_entered(batches: Seq<BatchView>, replay: ReplayView, index: int)
    ensures
        !(at_batch(batches, replay, index).phase is ReadProgress),
    decreases batches.len() - index,
{
    if 0 <= index < batches.len() {
        lemma_batch_entered(
            batches,
            ReplayView { skipped: replay.skipped.push(index as usize), ..replay },
            index + 1,
        );
    }
}

impl BatchReplay {
    /// The phase names a batch that there is.
    pub open spec fn wf(&self, batches: Seq<BatchView>) -> bool {
        &&& batches.len() <= usize::MAX
        &&& self@.phase matches ReplayPhase::FindMarker(index) ==> index < batches.len()
        &&& self@.phase matches ReplayPhase::Apply(index) ==> index < batches.len()
    }

    fn enter(&mut self, batches: &Vec<PreparedDuckLakeTableBatch>, start: usize)
        requires
            start <= batches@.len(),
        ensures
            final(self).wf(batch_views(batches@)),
            final(self)@ == at_batch(batch_views(batches@), old(self)@, start as int),
    {
        let ghost views = batch_views(batches@);
        let ghost target = at_batch(views, self@, start as int);
        let mut index: usize = start;
        let count: usize = batches.len();
        while index < batches.len()
            invariant
                views == batch_views(batches@),
                count == batches@.len(),
                index <= batches@.len(),
                target == at_batch(views, self@, index as int),
                target == at_batch(views, old(self)@, start as int),
            decreases batches@.len() - index,
        {
            let batch = &batches[index];
            assert(views[index as int] == batch@);
            if !batch.uses_streaming_progress() {
                self.phase = ReplayPhase::FindMarker(index);
                return;
            }
            let progress = match self.progress {
                Some(progress) => progress,
                None => {
                    self.phase = ReplayPhase::Apply(index);
                    return;
                },
            };
            match streaming_replay_decision(progress, batch) {
                Err(error) => {
                    self.phase = ReplayPhase::Done;
                    self.outcome = Some(error);
                    return;
                },
                Ok(StreamingReplayDecision::Apply) => {
                    self.phase = ReplayPhase::Apply(index);
                    return;
                },
                Ok(StreamingReplayDecision::Skip) => {
                    self.skipped.push(index);
                },
            }
            index = index + 1;
        }
        self.phase = ReplayPhase::Done;
    }

    /// Starts the application of prepared batches. `known` is the watermark
    /// where the writer has it from a confirmed commit; failures of a batch are
    /// wrapped in an error that names it where `wrap_failures` is set.
    pub fn new(
        batches: &Vec<PreparedDuckLakeTableBatch>,
        known: Option<TableStreamingProgress>,
        wrap_failures: bool,
    ) -> (r: BatchReplay)
        ensures
            r.wf(batch_views(batches@)),
            r@ == fresh_replay(batch_views(batches@), known, wrap_failures),
    {
        let count: usize = batches.len();
        assert(batch_views(batches@).len() == count);
        let mut replay = BatchReplay {
            phase: ReplayPhase::ReadProgress,
            progress: known,
            skipped: Vec::new(),
            wrap_failures,
            outcome: None,
        };
        if batches.len() == 0 {
            replay.phase = ReplayPhase::Done;
            return replay;
        }
        assert(batch_views(batches@)[0] == batches@[0]@);
        if !batches[0].uses_streaming_progress() {
            replay.progress = None;
            replay.enter(batches, 0);
        } else if known.is_some() {
            replay.enter(batches, 0);
        }
        replay
    }

    /// Starts one attempt at prepared batches. A failing copy batch is reported
    /// as it is; every other failing batch is named.
    pub fn for_attempt(
        batches: &Vec<PreparedDuckLakeTableBatch>,
        known: Option<TableStreamingProgress>,
    ) -> (r: BatchReplay)
        ensures
            r.wf(batch_views(batches@)),
            r@ == fresh_replay(
                batch_views(batches@),
                known,
                names_failures(batch_views(batches@)),
            ),
    {
        let mut wrap_failures: bool = true;
        if batches.len() > 0 {
            assert(batch_views(batches@)[0] == batches@[0]@);
            wrap_failures = match batches[0].batch_kind {
                DuckLakeTableBatchKind::Copy => false,
                _ => true,
            };
        }
        BatchReplay::new(batches, known, wrap_failures)
    }

    /// Starts one attempt at prepared batches from a remembered frontier. The
    /// durable frontier is read only where the remembered one is unknown; a
    /// remembered one may say that the table has no progress yet.
    pub fn for_frontier(
        batches: &Vec<PreparedDuckLakeTableBatch>,
        frontier: Option<Option<EventSequenceKey>>,
    ) -> (r: BatchReplay)
        ensures
            r.wf(batch_views(batches@)),
            r@ == remembered_replay(batch_views(batches@), frontier),
    {
        match frontier {
            None => BatchReplay::for_attempt(batches, None),
            Some(Some(last_sequence_key)) => BatchReplay::for_attempt(
                batches,
                Some(TableStreamingProgress { last_sequence_key }),
            ),
            Some(None) => {
                let mut replay = BatchReplay::for_attempt(batches, None);
                replay.progress_read(batches, None);
                replay
            },
        }
    }

    /// Returns what the host does next.
    pub fn phase(&self) -> (r: ReplayPhase)
        ensures
            r == self@.phase,
    {
        self.phase
    }

    /// Returns the batches that were skipped because they were committed
    /// already.
    pub fn skipped(&self) -> (r: &Vec<usize>)
        ensures
            r@ == self@.skipped,
    {
        &self.skipped
    }

    /// Takes in the durable watermark.
    pub fn progress_read(
        &mut self,
        batches: &Vec<PreparedDuckLakeTableBatch>,
        progress: Option<TableStreamingProgress>,
    )
        requires
            old(self).wf(batch_views(batches@)),
        ensures
            final(self).wf(batch_views(batches@)),
            final(self)@ == after_progress_read(batch_views(batches@), old(self)@, progress),
    {
        if let ReplayPhase::ReadProgress = self.phase {
            self.progress = progress;
            self.enter(batches, 0);
        }
    }

    /// Takes in whether the marker of a batch exists.
    pub fn marker_found(&mut self, batches: &Vec<PreparedDuckLakeTableBatch>, already_applied: bool)
        requires
            old(self).wf(batch_views(batches@)),
        ensures
            final(self).wf(batch_views(batches@)),
            final(self)@ == after_marker(batch_views(batches@), old(self)@, already_applied),
    {
        if let ReplayPhase::FindMarker(index) = self.phase {
            if already_applied {
                self.skipped.push(index);
                self.enter(batches, index + 1);
            } else {
                self.phase = ReplayPhase::Apply(index);
            }
        }
    }

    /// Takes in that a batch was applied.
    pub fn applied(&mut self, batches: &Vec<PreparedDuckLakeTableBatch>)
        requires
            old(self).wf(batch_views(batches@)),
        ensures
            final(self).wf(batch_views(batches@)),
            final(self)@ == after_applied(batch_views(batches@), old(self)@),
    {
        if let ReplayPhase::Apply(index) = self.phase {
            assert(batch_views(batches@)[index as int] == batches@[index as int]@);
            if batches[index].uses_streaming_progress() {
                self.progress = match batches[index].last_sequence_key {
                    None => None,
                    Some(last_sequence_key) => Some(TableStreamingProgress { last_sequence_key }),
                };
            }
            self.enter(batches, index + 1);
        }
    }

    /// Takes in that an action failed.
    pub fn failed(&mut self, batches: &Vec<PreparedDuckLakeTableBatch>, error: EtlError)
        requires
            old(self).wf(batch_views(batches@)),
        ensures
            final(self).wf(batch_views(batches@)),
            final(self)@ == after_replay_failure(batch_views(batches@), old(self)@, error@),
    {
        match self.phase {
            ReplayPhase::Apply(index) => {
                assert(batch_views(batches@)[index as int] == batches@[index as int]@);
                self.phase = ReplayPhase::Done;
                self.outcome = Some(
                    if self.wrap_failures {
                        wrap_batch_failure(&batches[index], error)
                    } else {
                        error
                    },
                );
            },
            ReplayPhase::Done => {},
            _ => {
                self.phase = ReplayPhase::Done;
                self.outcome = Some(error);
            },
        }
    }

    /// Returns the watermark that the applied batches left behind, or the
    /// failure.
    pub fn into_result(self) -> (r: Result<Option<TableStreamingProgress>, EtlError>)
        ensures
            match r {
                Ok(progress) => self@.outcome is None && progress == self@.progress,
                Err(error) => self@.outcome == Some(error@),
            },
    {
        match self.outcome {
            None => Ok(self.progress),
            Some(error) => Err(error),
        }
    }
}

/// Whether batches stream in source order: each starts no later than it ends,
/// and ends before the next one starts.
pub open spec fn in_source_order(batches: Seq<BatchView>) -> bool {
    &&& forall|k: int|
        0 <= k < batches.len() ==> {
            &&& is_streaming((#[trigger] batches[k]).batch_kind)
            &&& batches[k].first_sequence_key is Some
            &&& batches[k].last_sequence_key is Some
            &&& !key_before(batches[k].last_sequence_key->0, batches[k].first_sequence_key->0)
        }
    &&& forall|j: int, k: int|
        0 <= j < k < batches.len() ==> key_before(
            (#[trigger] batches[j]).last_sequence_key->0,
            (#[trigger] batches[k]).first_sequence_key->0,
        )
}

/// At the watermark that some batch left behind, replay skips that batch and
/// every earlier one, and applies every later one: no batch is applied twice,
/// none is left out, and the watermark never lands inside a batch.
pub proof fn law_replay_resumes_after_the_watermark(
    batches: Seq<BatchView>,
    committed: int,
    index: int,
)
    requires
        in_source_order(batches),
        0 <= committed < batches.len(),
        0 <= index < batches.len(),
    ensures
        replay_decision(batches[committed].last_sequence_key->0, batches[index]) == Ok::<
            StreamingReplayDecision,
            ErrorView,
        >(
            if index <= committed {
                StreamingReplayDecision::Skip
            } else {
                StreamingReplayDecision::Apply
            },
        ),
{
    let progress = batches[committed].last_sequence_key->0;
    if index < committed {
        assert(key_before(
            batches[index].last_sequence_key->0,
            batches[committed].first_sequence_key->0,
        ));
    }
}

/// Starting from the watermark that batch `committed` left behind, the first
/// batch that replay applies is the one after it.
pub proof fn law_replay_starts_after_the_watermark(
    batches: Seq<BatchView>,
    committed: int,
    replay: ReplayView,
    index: int,
)
    requires
        in_source_order(batches),
        batches.len() <= usize::MAX,
        0 <= committed < batches.len(),
        0 <= index <= committed + 1,
        replay.progress == Some(
            TableStreamingProgress { last_sequence_key: batches[committed].last_sequence_key->0 },
        ),
        replay.outcome is None,
    ensures
        at_batch(batches, replay, index).outcome is None,
        at_batch(batches, replay, index).progress == replay.progress,
        at_batch(batches, replay, index).phase == if committed + 1 < batches.len() {
            ReplayPhase::Apply((committed + 1) as usize)
        } else {
            ReplayPhase::Done
        },
        at_batch(batches, replay, index).skipped.len() == replay.skipped.len() + (committed + 1
            - index),
    decreases batches.len() - index,
{
    if index < batches.len() {
        law_replay_resumes_after_the_watermark(batches, committed, index);
        if index <= committed {
            law_replay_starts_after_the_watermark(
                batches,
                committed,
                ReplayView { skipped: replay.skipped.push(index as usize), ..replay },
                index + 1,
            );
        }
    }
}

/// Applying a batch moves the watermark to its last event, so a replay that
/// continues applies every batch in turn.
pub proof fn law_applied_batches_advance_the_watermark(
    batches: Seq<BatchView>,
    replay: ReplayView,
    index: int,
)
    requires
        in_source_order(batches),
        batches.len() <= usize::MAX,
        0 <= index < batches.len(),
        replay.phase == ReplayPhase::Apply(index as usize),
        replay.outcome is None,
    ensures
        after_applied(batches, replay).outcome is None,
        after_applied(batches, replay).skipped == replay.skipped,
        after_applied(batches, replay).progress == Some(
            TableStreamingProgress { last_sequence_key: batches[index].last_sequence_key->0 },
        ),
        after_applied(batches, replay).phase == if index + 1 < batches.len() {
            ReplayPhase::Apply((index + 1) as usize)
        } else {
            ReplayPhase::Done
        },
{
    assert(is_streaming(batches[index].batch_kind));
    let moved = ReplayView {
        progress: Some(
            TableStreamingProgress { last_sequence_key: batches[index].last_sequence_key->0 },
        ),
        ..replay
    };
    if index + 1 < batches.len() {
        law_replay_resumes_after_the_watermark(batches, index, index + 1);
    }
}

/// The row of a watermark query stands for the position it names.
pub proof fn law_frontier_row_names_its_position(commit_lsn: u64, tx_ordinal: u64)
    ensures
        row_progress(None) is None,
        row_progress(Some((commit_lsn, tx_ordinal))) matches Some(progress) && position(
            progress.last_sequence_key,
        ) == commit_lsn * 0x1_0000_0000_0000_0000 + tx_ordinal,
{
}

/// The frontier of a table is the greatest position, by number, that a watermark
/// query of any progress table found, and there is none only where none found any.
pub proof fn law_frontier_is_the_greatest_position_found(rows: Seq<Option<(u64, u64)>>)
    ensures
        latest_of(row_reads(rows)) is None <==> forall|i: int|
            0 <= i < rows.len() ==> (#[trigger] rows[i]) is None,
        latest_of(row_reads(rows)) matches Some(frontier) ==> {
            &&& forall|i: int|
                0 <= i < rows.len() ==> ((#[trigger] rows[i]) matches Some((lsn, ordinal)) ==> lsn
                    * 0x1_0000_0000_0000_0000 + ordinal <= position(frontier.last_sequence_key))
            &&& exists|i: int|
                0 <= i < rows.len() && ((#[trigger] rows[i]) matches Some((lsn, ordinal)) && lsn
                    * 0x1_0000_0000_0000_0000 + ordinal == position(frontier.last_sequence_key))
        },
    decreases rows.len(),
{
    let reads = row_reads(rows);
    if rows.len() > 0 {
        let shorter = rows.drop_last();
        let last = rows.len() - 1;
        law_frontier_is_the_greatest_position_found(shorter);
        assert(reads.drop_last() =~= row_reads(shorter));
        assert(reads.last() == row_progress(rows[last]));
        let before = latest_of(row_reads(shorter));
        let after = latest_of(reads);
        if before is Some && rows[last] is Some {
            law_keys_are_ordered_by_their_numbers(
                before->0.last_sequence_key,
                row_progress(rows[last])->0.last_sequence_key,
            );
        }
        assert forall|i: int| 0 <= i < last implies #[trigger] rows[i] == shorter[i] by {}
        if before is Some {
            let i = choose|i: int|
                0 <= i < shorter.len() && ((#[trigger] shorter[i]) matches Some((lsn, ordinal))
                    && lsn * 0x1_0000_0000_0000_0000 + ordinal == position(
                    before->0.last_sequence_key,
                ));
            assert(rows[i] == shorter[i]);
        }
        if before is None {
            assert forall|i: int| 0 <= i < last implies (#[trigger] rows[i]) is None by {
                assert(shorter[i] is None);
            }
        }
        if after is None {
            assert(before is None && rows[last] is None);
        }
    } else {
        assert(reads.len() == 0);
    }
}

/// Whether a batch belongs to a kind whose replay goes by the watermark.
pub open spec fn goes_by_watermark(batch: PreparedDuckLakeTableBatch) -> bool {
    match batch.batch_kind {
        DuckLakeTableBatchKind::Mutation => true,
        DuckLakeTableBatchKind::Truncate => true,
        DuckLakeTableBatchKind::Copy => false,
        DuckLakeTableBatchKind::CopyComplete => false,
    }
}

/// Whether a batch ends at the watermark or before it, by number.
pub open spec fn is_behind(batch: PreparedDuckLakeTableBatch, progress: EventSequenceKey) -> bool {
    match (batch.first_sequence_key, batch.last_sequence_key) {
        (Some(first), Some(last)) => position(first) <= position(progress) && position(last)
            <= position(progress),
        _ => false,
    }
}

/// Whether a batch starts after the watermark, by number.
pub open spec fn is_ahead(batch: PreparedDuckLakeTableBatch, progress: EventSequenceKey) -> bool {
    match (batch.first_sequence_key, batch.last_sequence_key) {
        (Some(first), Some(_)) => position(progress) < position(first),
        _ => false,
    }
}

/// A batch is applied exactly when it starts after the watermark and skipped exactly
/// when it is behind it. One that the watermark lies inside of, or whose positions are
/// not known, is refused.
pub proof fn law_replay_goes_by_position(
    progress: EventSequenceKey,
    batch: PreparedDuckLakeTableBatch,
)
    ensures
        match replay_decision(progress, batch@) {
            Ok(StreamingReplayDecision::Apply) => is_ahead(batch, progress),
            Ok(StreamingReplayDecision::Skip) => !is_ahead(batch, progress) && is_behind(
                batch,
                progress,
            ),
            Err(_) => !is_ahead(batch, progress) && !is_behind(batch, progress),
        },
{
    if batch.first_sequence_key is Some {
        law_keys_are_ordered_by_their_numbers(progress, batch.first_sequence_key->0);
    }
    if batch.last_sequence_key is Some {
        law_keys_are_ordered_by_their_numbers(progress, batch.last_sequence_key->0);
    }
}

/// Replay skips the batches that are behind the watermark, one after the other, and
/// stops at the first one that is not: a batch that does not go by the watermark is
/// looked up, one that starts after it is applied, and any other one fails the attempt.
/// Without a watermark the first batch that goes by it is applied. What was skipped
/// before, the watermark and the earlier outcome stay as they are.
pub proof fn law_replay_stops_at_the_first_batch_left(
    batches: Seq<PreparedDuckLakeTableBatch>,
    replay: ReplayView,
    index: int,
) -> (stop: int)
    requires
        0 <= index <= batches.len() <= usize::MAX,
    ensures
        index <= stop <= batches.len(),
        ({
            let after = at_batch(batch_views(batches), replay, index);
            &&& after.skipped == replay.skipped + Seq::new(
                (stop - index) as nat,
                |k: int| (index + k) as usize,
            )
            &&& after.progress == replay.progress
            &&& after.wrap_failures == replay.wrap_failures
            &&& forall|k: int|
                index <= k < stop ==> goes_by_watermark(#[trigger] batches[k]) && (
                replay.progress matches Some(progress) && is_behind(
                    batches[k],
                    progress.last_sequence_key,
                ))
            &&& if stop == batches.len() {
                after.phase is Done && after.outcome == replay.outcome
            } else if !goes_by_watermark(batches[stop]) {
                after.phase == ReplayPhase::FindMarker(stop as usize) && after.outcome
                    == replay.outcome
            } else if replay.progress matches Some(progress) && !is_ahead(
                batches[stop],
                progress.last_sequence_key,
            ) {
                &&& after.phase is Done
                &&& after.outcome is Some
                &&& !is_behind(batches[stop], replay.progress->0.last_sequence_key)
            } else {
                after.phase == ReplayPhase::Apply(stop as usize) && after.outcome
                    == replay.outcome
            }
        }),
    decreases batches.len() - index,
{
    let views = batch_views(batches);
    if index < batches.len() {
        assert(views[index] == batches[index]@);
        if replay.progress is Some {
            law_replay_goes_by_position(replay.progress->0.last_sequence_key, batches[index]);
        }
        if goes_by_watermark(batches[index]) && replay.progress is Some && replay_decision(
            replay.progress->0.last_sequence_key,
            views[index],
        ) == Ok::<StreamingReplayDecision, ErrorView>(StreamingReplayDecision::Skip) {
            let next = ReplayView { skipped: replay.skipped.push(index as usize), ..replay };
            let stop = law_replay_stops_at_the_first_batch_left(batches, next, index + 1);
            assert(at_batch(views, replay, index) == at_batch(views, next, index + 1));
            assert(next.skipped + Seq::new(
                (stop - (index + 1)) as nat,
                |k: int| (index + 1 + k) as usize,
            ) =~= replay.skipped + Seq::new((stop - index) as nat, |k: int| (index + k) as usize));
            stop
        } else {
            assert(replay.skipped + Seq::new(0, |k: int| (index + k) as usize)
                =~= replay.skipped);
            index
        }
    } else {
        assert(replay.skipped + Seq::new(0, |k: int| (index + k) as usize) =~= replay.skipped);
        index
    }
}

/// A batch whose marker was found is skipped and the attempt goes on behind it; one
/// whose marker was not found is applied. An applied batch that goes by the watermark
/// leaves its last position as the watermark and any other one leaves it as it is.
pub proof fn law_replay_goes_on_behind_a_batch(
    batches: Seq<PreparedDuckLakeTableBatch>,
    replay: ReplayView,
    index: usize,
    error: ErrorView,
)
    requires
        index < batches.len() <= usize::MAX,
    ensures
        replay.phase == ReplayPhase::FindMarker(index) ==> {
            &&& after_marker(batch_views(batches), replay, false) == (ReplayView {
                phase: ReplayPhase::Apply(index),
                ..replay
            })
            &&& after_marker(batch_views(batches), replay, true) == at_batch(
                batch_views(batches),
                ReplayView { skipped: replay.skipped.push(index), ..replay },
                index + 1,
            )
        },
        replay.phase == ReplayPhase::Apply(index) ==> {
            &&& after_applied(batch_views(batches), replay).progress == (if goes_by_watermark(
                batches[index as int],
            ) {
                match batches[index as int].last_sequence_key {
                    Some(last_sequence_key) => Some(TableStreamingProgress { last_sequence_key }),
                    None => None,
                }
            } else {
                replay.progress
            })
            &&& after_applied(batch_views(batches), replay).wrap_failures == replay.wrap_failures
            &&& after_replay_failure(batch_views(batches), replay, error).outcome == Some(
                if replay.wrap_failures {
                    batch_failure(batches[index as int]@, error)
                } else {
                    error
                },
            )
        },
        !(replay.phase is Apply) && !(replay.phase is Done) ==> after_replay_failure(
            batch_views(batches),
            replay,
            error,
        ).outcome == Some(error),
        !(replay.phase is Done) ==> after_replay_failure(
            batch_views(batches),
            replay,
            error,
        ).phase is Done,
        batch_failure(batches[index as int]@, error).cause == Some(Box::new(error)),
{
    let views = batch_views(batches);
    assert(views[index as int] == batches[index as int]@);
    if replay.phase == ReplayPhase::Apply(index) {
        let own = if goes_by_watermark(batches[index as int]) {
            match batches[index as int].last_sequence_key {
                Some(last_sequence_key) => Some(TableStreamingProgress { last_sequence_key }),
                None => None,
            }
        } else {
            replay.progress
        };
        law_replay_stops_at_the_first_batch_left(
            batches,
            ReplayView { progress: own, ..replay },
            index + 1,
        );
    }
}

/// A fresh attempt looks at the first batch: without one it is done, and where the first
/// one goes by the watermark it starts from what is known, or reads the watermark where
/// nothing is. Failures are named but for those of an attempt that starts with a copy.
pub proof fn law_attempts_start_from_what_is_known(
    batches: Seq<PreparedDuckLakeTableBatch>,
    known: Option<TableStreamingProgress>,
    wrap_failures: bool,
    read: Option<TableStreamingProgress>,
)
    requires
        batches.len() <= usize::MAX,
    ensures
        ({
            let views = batch_views(batches);
            let fresh = fresh_replay(views, known, wrap_failures);
            &&& batches.len() == 0 ==> fresh.phase is Done && fresh.outcome is None
            &&& batches.len() > 0 && goes_by_watermark(batches[0]) && known is None ==> {
                &&& fresh.phase is ReadProgress
                &&& fresh.outcome is None && fresh.skipped.len() == 0
                &&& after_progress_read(views, fresh, read) == at_batch(
                    views,
                    ReplayView { progress: read, ..fresh },
                    0,
                )
            }
            &&& batches.len() > 0 && goes_by_watermark(batches[0]) && known is Some
                ==> fresh.progress == known && !(fresh.phase is ReadProgress)
            &&& batches.len() > 0 && !goes_by_watermark(batches[0]) ==> fresh.phase
                == ReplayPhase::FindMarker(0) && fresh.progress is None
            &&& fresh.wrap_failures == wrap_failures
            &&& names_failures(views) == (batches.len() == 0 || !(batches[0].batch_kind is Copy))
        }),
{
    let views = batch_views(batches);
    if batches.len() > 0 {
        assert(views[0] == batches[0]@);
        let start = ReplayView {
            phase: ReplayPhase::ReadProgress,
            progress: known,
            skipped: Seq::empty(),
            wrap_failures,
            outcome: None,
        };
        let stop = law_replay_stops_at_the_first_batch_left(batches, start, 0);
        lemma_batch_entered(views, start, 0);
    }
}

/// A batch that cannot be decided on says why: which of its positions is not known, or
/// that the watermark lies inside of it, and where.
pub proof fn law_undecided_batches_say_why(
    progress: EventSequenceKey,
    batch: PreparedDuckLakeTableBatch,
)
    ensures
        replay_decision(progress, batch@) matches Err(error) ==> {
            let table = batch.table_name.schema@ + "."@ + batch.table_name.table@;
            &&& error.kind is InvalidState
            &&& match (batch.first_sequence_key, batch.last_sequence_key) {
                (None, _) => error.description
                    == "DuckLake streaming batch is missing its first sequence key"@
                    && error.detail == Some(
                    "table="@ + table + ", batch_kind="@ + batch.batch_kind.label(),
                ),
                (Some(_), None) => error.description
                    == "DuckLake streaming batch is missing its last sequence key"@
                    && error.detail == Some(
                    "table="@ + table + ", batch_kind="@ + batch.batch_kind.label(),
                ),
                (Some(first), Some(last)) => error.description
                    == "DuckLake streaming progress landed inside an atomic batch"@
                    && error.detail == Some(
                    "table="@ + table + ", progress="@ + sequence_key_text(progress) + ", first="@
                        + sequence_key_text(first) + ", last="@ + sequence_key_text(last),
                ),
            }
        },
        batch_failure_detail(batch@) == "table="@ + (batch.table_name.schema@ + "."@
            + batch.table_name.table@) + ", batch_id="@ + batch.batch_id@ + ", batch_kind="@
            + batch.batch_kind.label(),
{
}

} // verus!
