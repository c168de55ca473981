//! What the marker table holds, and how copy batches are replayed by it.

use vstd::prelude::*;

use crate::batches::{is_streaming, marker_of, BatchView};
use crate::copy::{flush_steps, CopyView, PendingView};
use crate::error::ErrorView;
use crate::replay::{after_applied, after_marker, at_batch, fresh_replay, ReplayPhase, ReplayView};
use crate::schema::table_id;
use crate::statements::{marker_statement, StatementView, LEGACY_REPLAY_EPOCH};
use crate::transaction::batch_checkpoint;

verus! {

/// One row of the marker table.
pub struct MarkerRow {
    pub table: Seq<char>,
    pub replay_epoch: Option<Seq<char>>,
    pub batch_id: Seq<char>,
}

/// Whether the marker query of a batch selects a row. A row without an epoch
/// belongs to the legacy epoch.
pub open spec fn marks(
    row: MarkerRow,
    table: Seq<char>,
    replay_epoch: Seq<char>,
    batch_id: Seq<char>,
) -> bool {
    &&& row.table == table
    &&& match row.replay_epoch {
        None => LEGACY_REPLAY_EPOCH@,
        Some(epoch) => epoch,
    } == replay_epoch
    &&& row.batch_id == batch_id
}

/// Whether the marker query of a batch finds a row.
pub open spec fn marked(
    rows: Seq<MarkerRow>,
    table: Seq<char>,
    replay_epoch: Seq<char>,
    batch_id: Seq<char>,
) -> bool {
    exists|i: int|
        0 <= i < rows.len() && marks(#[trigger] rows[i], table, replay_epoch, batch_id)
}

/// The row that the checkpoint of a copy batch appends.
pub open spec fn marker_row(batch: BatchView) -> MarkerRow {
    MarkerRow {
        table: table_id(batch.table),
        replay_epoch: Some(batch.replay_epoch),
        batch_id: batch.batch_id,
    }
}

/// Whether the marker of a batch is found.
pub open spec fn batch_marked(rows: Seq<MarkerRow>, batch: BatchView) -> bool {
    marked(rows, table_id(batch.table), batch.replay_epoch, batch.batch_id)
}

/// One more row marks what it names and nothing else.
pub proof fn law_row_marks_what_it_names(
    rows: Seq<MarkerRow>,
    row: MarkerRow,
    table: Seq<char>,
    replay_epoch: Seq<char>,
    batch_id: Seq<char>,
)
    ensures
        marked(rows.push(row), table, replay_epoch, batch_id) <==> marked(
            rows,
            table,
            replay_epoch,
            batch_id,
        ) || marks(row, table, replay_epoch, batch_id),
{
    let after = rows.push(row);
    assert(after[rows.len() as int] == row);
    if marked(rows, table, replay_epoch, batch_id) {
        let i = choose|i: int|
            0 <= i < rows.len() && marks(#[trigger] rows[i], table, replay_epoch, batch_id);
        assert(after[i] == rows[i]);
    }
    if marked(after, table, replay_epoch, batch_id) && !marks(row, table, replay_epoch, batch_id) {
        let i = choose|i: int|
            0 <= i < after.len() && marks(#[trigger] after[i], table, replay_epoch, batch_id);
        assert(rows[i] == after[i]);
    }
}

/// A row without an epoch marks its batch in the legacy epoch and in no other.
pub proof fn law_row_without_an_epoch_is_legacy(
    table: Seq<char>,
    replay_epoch: Seq<char>,
    batch_id: Seq<char>,
)
    ensures
        marked(
            seq![MarkerRow { table, replay_epoch: None, batch_id }],
            table,
            replay_epoch,
            batch_id,
        ) <==> replay_epoch == LEGACY_REPLAY_EPOCH@,
{
    let rows = seq![MarkerRow { table, replay_epoch: None, batch_id }];
    assert(rows[0] == MarkerRow { table, replay_epoch: None, batch_id });
}

/// The checkpoint of a committed copy batch is its marker, and that is found again:
/// in its own epoch, whatever else the table holds, and nowhere else where it was
/// not found before.
pub proof fn law_committed_copy_batch_is_marked(
    progress: Seq<char>,
    rows: Seq<MarkerRow>,
    batch: BatchView,
    replay_epoch: Seq<char>,
)
    requires
        !is_streaming(batch.batch_kind),
    ensures
        batch_checkpoint(progress, batch) == Ok::<Seq<StatementView>, ErrorView>(
            seq![
                marker_statement(
                    batch.table,
                    batch.replay_epoch,
                    batch.batch_id,
                    marker_of(batch),
                ),
            ],
        ),
        batch_marked(rows.push(marker_row(batch)), batch),
        replay_epoch != batch.replay_epoch ==> (marked(
            rows.push(marker_row(batch)),
            table_id(batch.table),
            replay_epoch,
            batch.batch_id,
        ) <==> marked(rows, table_id(batch.table), replay_epoch, batch.batch_id)),
{
    law_row_marks_what_it_names(
        rows,
        marker_row(batch),
        table_id(batch.table),
        batch.replay_epoch,
        batch.batch_id,
    );
    law_row_marks_what_it_names(
        rows,
        marker_row(batch),
        table_id(batch.table),
        replay_epoch,
        batch.batch_id,
    );
}

/// A replay that looks a committed batch up skips it, and applies a batch that has
/// no marker.
pub proof fn law_marked_batch_is_skipped(
    batches: Seq<BatchView>,
    replay: ReplayView,
    index: usize,
    rows: Seq<MarkerRow>,
)
    requires
        replay.phase == ReplayPhase::FindMarker(index),
        index < batches.len(),
    ensures
        batch_marked(rows.push(marker_row(batches[index as int])), batches[index as int]),
        after_marker(
            batches,
            replay,
            batch_marked(rows.push(marker_row(batches[index as int])), batches[index as int]),
        ) == at_batch(
            batches,
            ReplayView { skipped: replay.skipped.push(index), ..replay },
            index + 1,
        ),
        !batch_marked(rows, batches[index as int]) ==> after_marker(
            batches,
            replay,
            batch_marked(rows, batches[index as int]),
        ) == (ReplayView { phase: ReplayPhase::Apply(index), ..replay }),
{
    let batch = batches[index as int];
    law_row_marks_what_it_names(
        rows,
        marker_row(batch),
        table_id(batch.table),
        batch.replay_epoch,
        batch.batch_id,
    );
}

/// The rows that a flush of a buffered copy appends, in order.
pub open spec fn pending_rows(copy: CopyView) -> Seq<MarkerRow> {
    copy.pending.map_values(
        |pending: PendingView|
            MarkerRow {
                table: table_id(copy.table),
                replay_epoch: Some(copy.replay_epoch),
                batch_id: pending.batch_id,
            },
    )
}

/// A flush inserts one marker for each staged batch, behind the rows themselves,
/// and once it is committed each of them is found again.
pub proof fn law_flushed_batches_are_marked(copy: CopyView, rows: Seq<MarkerRow>, index: int)
    requires
        0 <= index < copy.pending.len(),
    ensures
        flush_steps(copy).len() == pending_rows(copy).len() + 1,
        flush_steps(copy)[index + 1] == marker_statement(
            copy.table,
            copy.replay_epoch,
            copy.pending[index].batch_id,
            copy.pending[index].marker,
        ),
        marked(
            rows + pending_rows(copy),
            table_id(copy.table),
            copy.replay_epoch,
            copy.pending[index].batch_id,
        ),
{
    let after = rows + pending_rows(copy);
    assert(after[rows.len() + index] == pending_rows(copy)[index]);
}

/// What the lake holds of one table copy: its rows and its markers.
pub struct CopiedView<T> {
    pub rows: T,
    pub markers: Seq<MarkerRow>,
}

/// The lake once a copy batch was committed: its rows and its marker come
/// together. `effect` says what a batch does to the rows.
pub open spec fn copied<T>(
    lake: CopiedView<T>,
    batch: BatchView,
    effect: spec_fn(T, BatchView) -> T,
) -> CopiedView<T> {
    CopiedView { rows: effect(lake.rows, batch), markers: lake.markers.push(marker_row(batch)) }
}

/// The lake once copy batches were committed in order, but for those that were
/// committed already.
pub open spec fn copied_all<T>(
    lake: CopiedView<T>,
    batches: Seq<BatchView>,
    effect: spec_fn(T, BatchView) -> T,
) -> CopiedView<T>
    decreases batches.len(),
{
    if batches.len() == 0 {
        lake
    } else {
        let earlier = copied_all(lake, batches.drop_last(), effect);
        if batch_marked(earlier.markers, batches.last()) {
            earlier
        } else {
            copied(earlier, batches.last(), effect)
        }
    }
}

/// An attempt at copy batches: where the replay stands and what the lake holds.
pub struct CopyAttemptView<T> {
    pub replay: ReplayView,
    pub lake: CopiedView<T>,
}

/// The attempt once the host did what comes next.
pub open spec fn copy_step<T>(
    batches: Seq<BatchView>,
    attempt: CopyAttemptView<T>,
    effect: spec_fn(T, BatchView) -> T,
) -> CopyAttemptView<T> {
    match attempt.replay.phase {
        ReplayPhase::FindMarker(index) => CopyAttemptView {
            replay: after_marker(
                batches,
                attempt.replay,
                batch_marked(attempt.lake.markers, batches[index as int]),
            ),
            ..attempt
        },
        ReplayPhase::Apply(index) => CopyAttemptView {
            replay: after_applied(batches, attempt.replay),
            lake: copied(attempt.lake, batches[index as int], effect),
        },
        _ => attempt,
    }
}

/// The attempt once the host did that many things.
pub open spec fn copy_after<T>(
    batches: Seq<BatchView>,
    attempt: CopyAttemptView<T>,
    effect: spec_fn(T, BatchView) -> T,
    count: nat,
) -> CopyAttemptView<T>
    decreases count,
{
    if count == 0 {
        attempt
    } else {
        copy_step(batches, copy_after(batches, attempt, effect, (count - 1) as nat), effect)
    }
}

/// An attempt at copy batches that has done nothing yet.
pub open spec fn fresh_copy_attempt<T>(
    batches: Seq<BatchView>,
    lake: CopiedView<T>,
    wrap_failures: bool,
) -> CopyAttemptView<T> {
    CopyAttemptView { replay: fresh_replay(batches, None, wrap_failures), lake }
}

/// Whether no batch is replayed by the watermark.
pub open spec fn by_markers(batches: Seq<BatchView>) -> bool {
    forall|k: int| 0 <= k < batches.len() ==> !is_streaming((#[trigger] batches[k]).batch_kind)
}

/// Whether an attempt is done with the first `reached` batches and stands before
/// the next one, or inside it where that has no marker.
spec fn stands_at<T>(
    batches: Seq<BatchView>,
    attempt: CopyAttemptView<T>,
    lake: CopiedView<T>,
    effect: spec_fn(T, BatchView) -> T,
    reached: int,
) -> bool {
    &&& 0 <= reached <= batches.len()
    &&& attempt.lake == copied_all(lake, batches.take(reached), effect)
    &&& attempt.replay.outcome is None
    &&& if reached == batches.len() {
        attempt.replay.phase is Done
    } else {
        ||| attempt.replay.phase == ReplayPhase::FindMarker(reached as usize)
        ||| {
            &&& attempt.replay.phase == ReplayPhase::Apply(reached as usize)
            &&& !batch_marked(attempt.lake.markers, batches[reached])
        }
    }
}

/// What is left to do: two actions for a batch that has no marker.
spec fn left_to_do<T>(batches: Seq<BatchView>, attempt: CopyAttemptView<T>, reached: int) -> int {
    2 * (batches.len() - reached) - if attempt.replay.phase is Apply {
        1int
    } else {
        0int
    }
}

proof fn lemma_copy_step<T>(
    batches: Seq<BatchView>,
    attempt: CopyAttemptView<T>,
    lake: CopiedView<T>,
    effect: spec_fn(T, BatchView) -> T,
    reached: int,
) -> (next: int)
    requires
        by_markers(batches),
        batches.len() <= usize::MAX,
        stands_at(batches, attempt, lake, effect, reached),
    ensures
        stands_at(batches, copy_step(batches, attempt, effect), lake, effect, next),
        left_to_do(batches, attempt, reached) > 0 ==> left_to_do(
            batches,
            copy_step(batches, attempt, effect),
            next,
        ) < left_to_do(batches, attempt, reached),
        left_to_do(batches, attempt, reached) == 0 ==> next == reached,
{
    if reached == batches.len() {
        reached
    } else {
        let with_next = batches.take(reached + 1);
        assert(with_next.drop_last() =~= batches.take(reached));
        assert(with_next.last() == batches[reached]);
        assert(!is_streaming(batches[reached].batch_kind));
        if reached + 1 < batches.len() {
            assert(!is_streaming(batches[reached + 1].batch_kind));
        }
        if attempt.replay.phase is Apply || batch_marked(attempt.lake.markers, batches[reached]) {
            reached + 1
        } else {
            reached
        }
    }
}

proof fn lemma_copy_attempt<T>(
    batches: Seq<BatchView>,
    lake: CopiedView<T>,
    effect: spec_fn(T, BatchView) -> T,
    wrap_failures: bool,
    count: nat,
) -> (reached: int)
    requires
        by_markers(batches),
        batches.len() <= usize::MAX,
    ensures
        stands_at(
            batches,
            copy_after(batches, fresh_copy_attempt(batches, lake, wrap_failures), effect, count),
            lake,
            effect,
            reached,
        ),
        count >= 2 * batches.len() ==> reached == batches.len(),
        left_to_do(
            batches,
            copy_after(batches, fresh_copy_attempt(batches, lake, wrap_failures), effect, count),
            reached,
        ) <= if count >= 2 * batches.len() {
            0
        } else {
            2 * batches.len() - count
        },
    decreases count,
{
    let start = fresh_copy_attempt(batches, lake, wrap_failures);
    if count == 0 {
        assert(batches.take(0) =~= Seq::empty());
        assert(copied_all(lake, batches.take(0), effect) == lake);
        if batches.len() > 0 {
            assert(!is_streaming(batches[0].batch_kind));
        }
        0
    } else {
        let before = copy_after(batches, start, effect, (count - 1) as nat);
        let earlier = lemma_copy_attempt(batches, lake, effect, wrap_failures, (count - 1) as nat);
        lemma_copy_step(batches, before, lake, effect, earlier)
    }
}

/// A replay of copy batches completes the copy: whatever was committed before, at
/// the end every batch that had no marker was committed, in order, and nothing
/// failed.
pub proof fn law_copy_replay_completes_the_copy<T>(
    batches: Seq<BatchView>,
    lake: CopiedView<T>,
    effect: spec_fn(T, BatchView) -> T,
    wrap_failures: bool,
    count: nat,
)
    requires
        by_markers(batches),
        batches.len() <= usize::MAX,
        count >= 2 * batches.len(),
    ensures
        ({
            let after = copy_after(
                batches,
                fresh_copy_attempt(batches, lake, wrap_failures),
                effect,
                count,
            );
            &&& after.lake == copied_all(lake, batches, effect)
            &&& after.replay.phase is Done
            &&& after.replay.outcome is None
        }),
{
    let reached = lemma_copy_attempt(batches, lake, effect, wrap_failures, count);
    assert(batches.take(batches.len() as int) =~= batches);
}

/// An attempt at copy batches that stops anywhere leaves the lake with the batches
/// of a prefix.
pub proof fn law_stopped_copy_attempt_leaves_a_prefix<T>(
    batches: Seq<BatchView>,
    lake: CopiedView<T>,
    effect: spec_fn(T, BatchView) -> T,
    wrap_failures: bool,
    count: nat,
)
    requires
        by_markers(batches),
        batches.len() <= usize::MAX,
    ensures
        exists|reached: int|
            0 <= reached <= batches.len() && copy_after(
                batches,
                fresh_copy_attempt(batches, lake, wrap_failures),
                effect,
                count,
            ).lake == copied_all(lake, #[trigger] batches.take(reached), effect),
{
    let reached = lemma_copy_attempt(batches, lake, effect, wrap_failures, count);
    assert(0 <= reached <= batches.len() && copy_after(
        batches,
        fresh_copy_attempt(batches, lake, wrap_failures),
        effect,
        count,
    ).lake == copied_all(lake, batches.take(reached), effect));
}

/// A marker stays, and once batches were committed each of them has one.
proof fn lemma_markers_stay<T>(
    lake: CopiedView<T>,
    batches: Seq<BatchView>,
    effect: spec_fn(T, BatchView) -> T,
    batch: BatchView,
)
    ensures
        batch_marked(lake.markers, batch) ==> batch_marked(
            copied_all(lake, batches, effect).markers,
            batch,
        ),
        batches.contains(batch) ==> batch_marked(copied_all(lake, batches, effect).markers, batch),
    decreases batches.len(),
{
    if batches.len() > 0 {
        let shorter = batches.drop_last();
        lemma_markers_stay(lake, shorter, effect, batch);
        let earlier = copied_all(lake, shorter, effect);
        law_row_marks_what_it_names(
            earlier.markers,
            marker_row(batches.last()),
            table_id(batch.table),
            batch.replay_epoch,
            batch.batch_id,
        );
        if batches.contains(batch) && batch != batches.last() {
            let k = choose|k: int| 0 <= k < batches.len() && batches[k] == batch;
            assert(shorter[k] == batch);
        }
    }
}

/// Every batch of a copy is marked once the copy is complete, and replaying
/// batches of it again changes nothing: no batch is committed twice.
pub proof fn law_copied_batches_are_not_copied_again<T>(
    lake: CopiedView<T>,
    batches: Seq<BatchView>,
    again: Seq<BatchView>,
    effect: spec_fn(T, BatchView) -> T,
)
    requires
        forall|k: int| 0 <= k < again.len() ==> batches.contains(#[trigger] again[k]),
    ensures
        forall|k: int|
            0 <= k < batches.len() ==> batch_marked(
                copied_all(lake, batches, effect).markers,
                #[trigger] batches[k],
            ),
        copied_all(copied_all(lake, batches, effect), again, effect) == copied_all(
            lake,
            batches,
            effect,
        ),
    decreases again.len(),
{
    assert forall|k: int| 0 <= k < batches.len() implies batch_marked(
        copied_all(lake, batches, effect).markers,
        #[trigger] batches[k],
    ) by {
        lemma_markers_stay(lake, batches, effect, batches[k]);
    }
    if again.len() > 0 {
        let shorter = again.drop_last();
        assert forall|k: int| 0 <= k < shorter.len() implies batches.contains(
            #[trigger] shorter[k],
        ) by {
            assert(again[k] == shorter[k]);
        }
        law_copied_batches_are_not_copied_again(lake, batches, shorter, effect);
        assert(batches.contains(again[again.len() - 1]));
        lemma_markers_stay(lake, batches, effect, again.last());
    }
}

/// A copy that was stopped after a prefix is completed by a replay of all its
/// batches, as if it had not been stopped.
pub proof fn law_stopped_copy_is_completed<T>(
    lake: CopiedView<T>,
    batches: Seq<BatchView>,
    effect: spec_fn(T, BatchView) -> T,
    reached: int,
)
    requires
        0 <= reached <= batches.len(),
    ensures
        copied_all(copied_all(lake, batches.take(reached), effect), batches, effect) == copied_all(
            lake,
            batches,
            effect,
        ),
{
    let prefix = batches.take(reached);
    let rest = batches.skip(reached);
    let stopped = copied_all(lake, prefix, effect);
    assert forall|k: int| 0 <= k < prefix.len() implies prefix.contains(#[trigger] prefix[k]) by {}
    law_copied_batches_are_not_copied_again(lake, prefix, prefix, effect);
    lemma_copied_in_turn(stopped, prefix, rest, effect);
    lemma_copied_in_turn(lake, prefix, rest, effect);
    assert(prefix + rest =~= batches);
}

proof fn lemma_copied_in_turn<T>(
    lake: CopiedView<T>,
    first: Seq<BatchView>,
    second: Seq<BatchView>,
    effect: spec_fn(T, BatchView) -> T,
)
    ensures
        copied_all(lake, first + second, effect) == copied_all(
            copied_all(lake, first, effect),
            second,
            effect,
        ),
    decreases second.len(),
{
    if second.len() == 0 {
        assert(first + second =~= first);
    } else {
        lemma_copied_in_turn(lake, first, second.drop_last(), effect);
        assert((first + second).drop_last() =~= first + second.drop_last());
    }
}

} // verus!
