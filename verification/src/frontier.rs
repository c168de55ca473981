//! What progress tables hold, and the replay position that is read from them.

use vstd::prelude::*;

use crate::batches::BatchView;
use crate::error::ErrorView;
use crate::replay::{
    latest_of, later_of, law_latest_frontier_is_greatest, replay_decision, StreamingReplayDecision,
    TableStreamingProgress,
};
use crate::schema::table_id;
use crate::sequence::{key_before, EventSequenceKey};
use crate::statements::LEGACY_REPLAY_EPOCH;
use crate::streaming_progress::{written_names, SHARED_STREAMING_PROGRESS_TABLE};

verus! {

/// One row of a progress table.
pub struct ProgressRow {
    pub table: Seq<char>,
    pub replay_epoch: Option<Seq<char>>,
    pub key: EventSequenceKey,
}

/// Whether the watermark query of a table in an epoch selects a row. A row without
/// an epoch belongs to the legacy epoch.
pub open spec fn selected(row: ProgressRow, table: Seq<char>, replay_epoch: Seq<char>) -> bool {
    &&& row.table == table
    &&& match row.replay_epoch {
        None => LEGACY_REPLAY_EPOCH@,
        Some(epoch) => epoch,
    } == replay_epoch
}

/// What the watermark query of a table in an epoch finds in a progress table: the
/// last key of the rows that it selects.
pub open spec fn found(rows: Seq<ProgressRow>, table: Seq<char>, replay_epoch: Seq<char>) -> Option<
    TableStreamingProgress,
>
    decreases rows.len(),
{
    if rows.len() == 0 {
        None
    } else {
        let earlier = found(rows.drop_last(), table, replay_epoch);
        if selected(rows.last(), table, replay_epoch) {
            later_of(
                earlier,
                Some(TableStreamingProgress { last_sequence_key: rows.last().key }),
            )
        } else {
            earlier
        }
    }
}

/// The rows of a progress table. A table that does not exist yet has none.
pub open spec fn rows_of(tables: Map<Seq<char>, Seq<ProgressRow>>, name: Seq<char>) -> Seq<
    ProgressRow,
> {
    if tables.dom().contains(name) {
        tables[name]
    } else {
        Seq::empty()
    }
}

/// What a pipeline recording into `progress` reads: the findings of the progress
/// tables that it writes.
pub open spec fn reads(
    tables: Map<Seq<char>, Seq<ProgressRow>>,
    progress: Seq<char>,
    table: Seq<char>,
    replay_epoch: Seq<char>,
) -> Seq<Option<TableStreamingProgress>> {
    written_names(progress).map_values(
        |name: Seq<char>| found(rows_of(tables, name), table, replay_epoch),
    )
}

/// The frontier of a table in an epoch, as a pipeline recording into `progress`
/// reads it: the latest of its findings.
pub open spec fn frontier(
    tables: Map<Seq<char>, Seq<ProgressRow>>,
    progress: Seq<char>,
    table: Seq<char>,
    replay_epoch: Seq<char>,
) -> Option<TableStreamingProgress> {
    latest_of(reads(tables, progress, table, replay_epoch))
}

/// The progress tables once a batch of a pipeline recording into `progress` was
/// committed: its row was appended to every table that the pipeline writes.
pub open spec fn with_row(
    tables: Map<Seq<char>, Seq<ProgressRow>>,
    progress: Seq<char>,
    row: ProgressRow,
) -> Map<Seq<char>, Seq<ProgressRow>> {
    Map::new(
        |name: Seq<char>| tables.dom().contains(name) || written_names(progress).contains(name),
        |name: Seq<char>|
            if written_names(progress).contains(name) {
                rows_of(tables, name).push(row)
            } else {
                tables[name]
            },
    )
}

/// The row that the checkpoint of a streaming batch appends.
pub open spec fn checkpoint_row(batch: BatchView) -> ProgressRow {
    ProgressRow {
        table: table_id(batch.table),
        replay_epoch: Some(batch.replay_epoch),
        key: batch.last_sequence_key->0,
    }
}

/// A watermark query finds the greatest key of the rows that it selects, and
/// nothing exactly when it selects none.
pub proof fn law_query_finds_the_greatest(
    rows: Seq<ProgressRow>,
    table: Seq<char>,
    replay_epoch: Seq<char>,
)
    ensures
        found(rows, table, replay_epoch) is None <==> forall|i: int|
            0 <= i < rows.len() ==> !selected(#[trigger] rows[i], table, replay_epoch),
        found(rows, table, replay_epoch) matches Some(progress) ==> exists|i: int|
            0 <= i < rows.len() && selected(#[trigger] rows[i], table, replay_epoch) && rows[i].key
                == progress.last_sequence_key,
        forall|i: int|
            0 <= i < rows.len() && selected(#[trigger] rows[i], table, replay_epoch)
                ==> !key_before(
                found(rows, table, replay_epoch)->0.last_sequence_key,
                rows[i].key,
            ),
    decreases rows.len(),
{
    if rows.len() > 0 {
        let earlier = rows.drop_last();
        let last = rows.len() - 1;
        law_query_finds_the_greatest(earlier, table, replay_epoch);
        assert(rows[last] == rows.last());
        assert forall|i: int| 0 <= i < earlier.len() implies #[trigger] earlier[i] == rows[i] by {}
        if found(earlier, table, replay_epoch) is Some {
            let k = choose|k: int|
                0 <= k < earlier.len() && selected(#[trigger] earlier[k], table, replay_epoch)
                    && earlier[k].key == found(earlier, table, replay_epoch)->0.last_sequence_key;
            assert(rows[k] == earlier[k]);
        }
        if found(rows, table, replay_epoch) is None {
            assert forall|i: int| 0 <= i < rows.len() implies !selected(
                #[trigger] rows[i],
                table,
                replay_epoch,
            ) by {
                if i < last {
                    assert(!selected(earlier[i], table, replay_epoch));
                }
            }
        }
        assert forall|i: int|
            0 <= i < rows.len() && selected(#[trigger] rows[i], table, replay_epoch)
            implies !key_before(
            found(rows, table, replay_epoch)->0.last_sequence_key,
            rows[i].key,
        ) by {
            if i < last {
                assert(selected(earlier[i], table, replay_epoch));
            }
        }
    }
}

/// A pipeline with its own table reads the later of what its own table and the
/// shared one hold. Any other pipeline reads the shared one.
pub proof fn law_frontier_is_the_later_of_both(
    tables: Map<Seq<char>, Seq<ProgressRow>>,
    progress: Seq<char>,
    table: Seq<char>,
    replay_epoch: Seq<char>,
)
    ensures
        frontier(tables, progress, table, replay_epoch) == later_of(
            found(rows_of(tables, progress), table, replay_epoch),
            found(rows_of(tables, SHARED_STREAMING_PROGRESS_TABLE@), table, replay_epoch),
        ),
        frontier(tables, SHARED_STREAMING_PROGRESS_TABLE@, table, replay_epoch) == found(
            rows_of(tables, SHARED_STREAMING_PROGRESS_TABLE@),
            table,
            replay_epoch,
        ),
{
    lemma_one_or_two_reads(tables, progress, table, replay_epoch);
    lemma_one_or_two_reads(tables, SHARED_STREAMING_PROGRESS_TABLE@, table, replay_epoch);
}

proof fn lemma_one_or_two_reads(
    tables: Map<Seq<char>, Seq<ProgressRow>>,
    progress: Seq<char>,
    table: Seq<char>,
    replay_epoch: Seq<char>,
)
    ensures
        frontier(tables, progress, table, replay_epoch) == later_of(
            found(rows_of(tables, progress), table, replay_epoch),
            found(rows_of(tables, SHARED_STREAMING_PROGRESS_TABLE@), table, replay_epoch),
        ),
{
    let all = reads(tables, progress, table, replay_epoch);
    let own = found(rows_of(tables, progress), table, replay_epoch);
    let shared = found(rows_of(tables, SHARED_STREAMING_PROGRESS_TABLE@), table, replay_epoch);
    if progress == SHARED_STREAMING_PROGRESS_TABLE@ {
        assert(all =~= seq![own]);
        assert(all.drop_last() =~= Seq::empty());
        assert(latest_of(all.drop_last()) is None);
    } else {
        assert(all =~= seq![own, shared]);
        assert(all.drop_last() =~= seq![own]);
        assert(all.drop_last().drop_last() =~= Seq::empty());
        assert(latest_of(all.drop_last().drop_last()) is None);
        assert(latest_of(all.drop_last()) == own);
    }
}

/// The frontier is the greatest key over every row that the progress tables of the
/// pipeline hold of the table in the epoch, and there is none exactly when there is
/// no such row.
pub proof fn law_frontier_is_the_greatest_recorded(
    tables: Map<Seq<char>, Seq<ProgressRow>>,
    progress: Seq<char>,
    table: Seq<char>,
    replay_epoch: Seq<char>,
)
    ensures
        frontier(tables, progress, table, replay_epoch) is None <==> forall|name: Seq<char>, i: int|
            written_names(progress).contains(name) && 0 <= i < rows_of(tables, name).len()
                ==> !selected(#[trigger] rows_of(tables, name)[i], table, replay_epoch),
        frontier(tables, progress, table, replay_epoch) matches Some(latest) ==> exists|
            name: Seq<char>,
            i: int,
        |
            written_names(progress).contains(name) && 0 <= i < rows_of(tables, name).len()
                && selected(#[trigger] rows_of(tables, name)[i], table, replay_epoch) && rows_of(
                tables,
                name,
            )[i].key == latest.last_sequence_key,
        forall|name: Seq<char>, i: int|
            written_names(progress).contains(name) && 0 <= i < rows_of(tables, name).len()
                && selected(#[trigger] rows_of(tables, name)[i], table, replay_epoch)
                ==> !key_before(
                frontier(tables, progress, table, replay_epoch)->0.last_sequence_key,
                rows_of(tables, name)[i].key,
            ),
{
    let names = written_names(progress);
    let all = reads(tables, progress, table, replay_epoch);
    let latest = frontier(tables, progress, table, replay_epoch);
    law_latest_frontier_is_greatest(all);
    assert forall|k: int| 0 <= k < names.len() implies #[trigger] all[k] == found(
        rows_of(tables, names[k]),
        table,
        replay_epoch,
    ) by {}
    assert forall|name: Seq<char>, i: int|
        names.contains(name) && 0 <= i < rows_of(tables, name).len() && selected(
            #[trigger] rows_of(tables, name)[i],
            table,
            replay_epoch,
        ) implies latest is Some && !key_before(
        latest->0.last_sequence_key,
        rows_of(tables, name)[i].key,
    ) by {
        let k = choose|k: int| 0 <= k < names.len() && names[k] == name;
        law_query_finds_the_greatest(rows_of(tables, name), table, replay_epoch);
        assert(all[k] is Some);
    }
    if latest is Some {
        let k = choose|k: int| 0 <= k < all.len() && all[k] == latest;
        let name = names[k];
        assert(names.contains(name));
        assert(all[k] == found(rows_of(tables, name), table, replay_epoch));
        law_query_finds_the_greatest(rows_of(tables, name), table, replay_epoch);
        let i = choose|i: int|
            0 <= i < rows_of(tables, name).len() && selected(
                #[trigger] rows_of(tables, name)[i],
                table,
                replay_epoch,
            ) && rows_of(tables, name)[i].key == latest->0.last_sequence_key;
        assert(selected(rows_of(tables, name)[i], table, replay_epoch));
    }
}

proof fn lemma_found_after(
    tables: Map<Seq<char>, Seq<ProgressRow>>,
    progress: Seq<char>,
    row: ProgressRow,
    name: Seq<char>,
    table: Seq<char>,
    replay_epoch: Seq<char>,
)
    requires
        selected(row, table, replay_epoch),
        name == progress || name == SHARED_STREAMING_PROGRESS_TABLE@,
    ensures
        found(rows_of(with_row(tables, progress, row), name), table, replay_epoch) == later_of(
            found(rows_of(tables, name), table, replay_epoch),
            Some(TableStreamingProgress { last_sequence_key: row.key }),
        ),
{
    let names = written_names(progress);
    assert(names[0] == progress);
    assert(names.contains(progress));
    if progress != SHARED_STREAMING_PROGRESS_TABLE@ {
        assert(names[1] == SHARED_STREAMING_PROGRESS_TABLE@);
    }
    assert(names.contains(name));
    let before = rows_of(tables, name);
    assert(rows_of(with_row(tables, progress, row), name) == before.push(row));
    assert(before.push(row).drop_last() =~= before);
}

/// After a commit the replay position is at least the key of the batch, whoever
/// reads it: the pipeline, whether or not its own table held anything before, and
/// a version that knows the shared table alone.
pub proof fn law_commit_reaches_every_reader(
    tables: Map<Seq<char>, Seq<ProgressRow>>,
    progress: Seq<char>,
    row: ProgressRow,
    table: Seq<char>,
    replay_epoch: Seq<char>,
)
    requires
        selected(row, table, replay_epoch),
    ensures
        ({
            let after = with_row(tables, progress, row);
            let own = frontier(after, progress, table, replay_epoch);
            let shared = frontier(after, SHARED_STREAMING_PROGRESS_TABLE@, table, replay_epoch);
            &&& own is Some && !key_before(own->0.last_sequence_key, row.key)
            &&& shared is Some && !key_before(shared->0.last_sequence_key, row.key)
        }),
{
    let after = with_row(tables, progress, row);
    lemma_found_after(tables, progress, row, progress, table, replay_epoch);
    lemma_found_after(
        tables,
        progress,
        row,
        SHARED_STREAMING_PROGRESS_TABLE@,
        table,
        replay_epoch,
    );
    law_frontier_is_the_later_of_both(after, progress, table, replay_epoch);
}

/// A streaming batch that was committed is never before the frontier of its table:
/// its checkpoint appends its last key to every progress table that the pipeline
/// writes, so a replay skips it.
pub proof fn law_committed_batch_is_behind_the_frontier(
    tables: Map<Seq<char>, Seq<ProgressRow>>,
    progress: Seq<char>,
    batch: BatchView,
)
    requires
        batch.last_sequence_key is Some,
        batch.first_sequence_key is Some,
        !key_before(batch.last_sequence_key->0, batch.first_sequence_key->0),
    ensures
        ({
            let after = with_row(tables, progress, checkpoint_row(batch));
            let table = table_id(batch.table);
            let own = frontier(after, progress, table, batch.replay_epoch);
            let shared = frontier(
                after,
                SHARED_STREAMING_PROGRESS_TABLE@,
                table,
                batch.replay_epoch,
            );
            &&& own is Some && replay_decision(own->0.last_sequence_key, batch) == Ok::<
                StreamingReplayDecision,
                ErrorView,
            >(StreamingReplayDecision::Skip)
            &&& shared is Some && replay_decision(shared->0.last_sequence_key, batch) == Ok::<
                StreamingReplayDecision,
                ErrorView,
            >(StreamingReplayDecision::Skip)
        }),
{
    law_commit_reaches_every_reader(
        tables,
        progress,
        checkpoint_row(batch),
        table_id(batch.table),
        batch.replay_epoch,
    );
}

/// A commit after the frontier moves it to the key of the batch, and leaves the
/// frontiers of other tables and epochs alone.
pub proof fn law_commit_moves_the_frontier(
    tables: Map<Seq<char>, Seq<ProgressRow>>,
    progress: Seq<char>,
    row: ProgressRow,
    table: Seq<char>,
    replay_epoch: Seq<char>,
)
    ensures
        selected(row, table, replay_epoch) && (frontier(tables, progress, table, replay_epoch) matches Some(
            latest,
        ) ==> key_before(latest.last_sequence_key, row.key)) ==> frontier(
            with_row(tables, progress, row),
            progress,
            table,
            replay_epoch,
        ) == Some(TableStreamingProgress { last_sequence_key: row.key }),
        !selected(row, table, replay_epoch) ==> frontier(
            with_row(tables, progress, row),
            progress,
            table,
            replay_epoch,
        ) == frontier(tables, progress, table, replay_epoch),
{
    let after = with_row(tables, progress, row);
    law_frontier_is_the_later_of_both(tables, progress, table, replay_epoch);
    law_frontier_is_the_later_of_both(after, progress, table, replay_epoch);
    if selected(row, table, replay_epoch) {
        lemma_found_after(tables, progress, row, progress, table, replay_epoch);
        lemma_found_after(
            tables,
            progress,
            row,
            SHARED_STREAMING_PROGRESS_TABLE@,
            table,
            replay_epoch,
        );
    } else {
        lemma_found_unchanged(tables, progress, row, progress, table, replay_epoch);
        lemma_found_unchanged(
            tables,
            progress,
            row,
            SHARED_STREAMING_PROGRESS_TABLE@,
            table,
            replay_epoch,
        );
    }
}

proof fn lemma_found_unchanged(
    tables: Map<Seq<char>, Seq<ProgressRow>>,
    progress: Seq<char>,
    row: ProgressRow,
    name: Seq<char>,
    table: Seq<char>,
    replay_epoch: Seq<char>,
)
    requires
        !selected(row, table, replay_epoch),
    ensures
        found(rows_of(with_row(tables, progress, row), name), table, replay_epoch) == found(
            rows_of(tables, name),
            table,
            replay_epoch,
        ),
{
    let before = rows_of(tables, name);
    if written_names(progress).contains(name) {
        assert(rows_of(with_row(tables, progress, row), name) == before.push(row));
        assert(before.push(row).drop_last() =~= before);
    } else {
        assert(rows_of(with_row(tables, progress, row), name) == before);
    }
}

/// Moving to a separate table keeps the replay position: while the own table holds
/// nothing, the pipeline reads what the shared one holds.
pub proof fn law_moving_keeps_the_position(
    tables: Map<Seq<char>, Seq<ProgressRow>>,
    progress: Seq<char>,
    table: Seq<char>,
    replay_epoch: Seq<char>,
)
    requires
        rows_of(tables, progress).len() == 0,
    ensures
        frontier(tables, progress, table, replay_epoch) == frontier(
            tables,
            SHARED_STREAMING_PROGRESS_TABLE@,
            table,
            replay_epoch,
        ),
{
    law_frontier_is_the_later_of_both(tables, progress, table, replay_epoch);
}

/// Rolling back keeps the replay position: once the shared table alone gives the
/// pipeline's frontier, it does so after every commit.
pub proof fn law_rolling_back_keeps_the_position(
    tables: Map<Seq<char>, Seq<ProgressRow>>,
    progress: Seq<char>,
    row: ProgressRow,
    table: Seq<char>,
    replay_epoch: Seq<char>,
)
    requires
        frontier(tables, progress, table, replay_epoch) == frontier(
            tables,
            SHARED_STREAMING_PROGRESS_TABLE@,
            table,
            replay_epoch,
        ),
    ensures
        frontier(with_row(tables, progress, row), progress, table, replay_epoch) == frontier(
            with_row(tables, progress, row),
            SHARED_STREAMING_PROGRESS_TABLE@,
            table,
            replay_epoch,
        ),
{
    let after = with_row(tables, progress, row);
    law_frontier_is_the_later_of_both(tables, progress, table, replay_epoch);
    law_frontier_is_the_later_of_both(after, progress, table, replay_epoch);
    if selected(row, table, replay_epoch) {
        lemma_found_after(tables, progress, row, progress, table, replay_epoch);
        lemma_found_after(
            tables,
            progress,
            row,
            SHARED_STREAMING_PROGRESS_TABLE@,
            table,
            replay_epoch,
        );
    } else {
        lemma_found_unchanged(tables, progress, row, progress, table, replay_epoch);
        lemma_found_unchanged(
            tables,
            progress,
            row,
            SHARED_STREAMING_PROGRESS_TABLE@,
            table,
            replay_epoch,
        );
    }
}

} // verus!
