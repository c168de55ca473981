//! Replay of a table's batches over several attempts.

use vstd::prelude::*;

use crate::batches::BatchView;
use crate::replay::{
    after_applied, after_progress_read, fresh_replay, in_source_order,
    law_applied_batches_advance_the_watermark, law_replay_starts_after_the_watermark,
    names_failures, remembered_replay, ReplayPhase, ReplayView, TableStreamingProgress,
};
use crate::sequence::{key_before, EventSequenceKey};

verus! {

/// What the lake holds of one table: its rows and its watermark.
pub struct LakeView<T> {
    pub rows: T,
    pub watermark: Option<EventSequenceKey>,
}

/// The lake once a batch was committed: its rows and its watermark change
/// together. `effect` says what a batch does to the rows.
pub open spec fn committed<T>(
    lake: LakeView<T>,
    batch: BatchView,
    effect: spec_fn(T, BatchView) -> T,
) -> LakeView<T> {
    LakeView { rows: effect(lake.rows, batch), watermark: batch.last_sequence_key }
}

/// The lake once batches were committed, in order and each of them once.
pub open spec fn committed_all<T>(
    lake: LakeView<T>,
    batches: Seq<BatchView>,
    effect: spec_fn(T, BatchView) -> T,
) -> LakeView<T>
    decreases batches.len(),
{
    if batches.len() == 0 {
        lake
    } else {
        committed(committed_all(lake, batches.drop_last(), effect), batches.last(), effect)
    }
}

/// Whether a backlog starts after a watermark. A table without progress has none.
pub open spec fn starts_after(watermark: Option<EventSequenceKey>, batches: Seq<BatchView>) -> bool {
    batches.len() > 0 ==> (watermark matches Some(key) ==> key_before(
        key,
        batches[0].first_sequence_key->0,
    ))
}

/// The progress a lake reports.
pub open spec fn reported(watermark: Option<EventSequenceKey>) -> Option<TableStreamingProgress> {
    match watermark {
        None => None,
        Some(last_sequence_key) => Some(TableStreamingProgress { last_sequence_key }),
    }
}

/// An attempt: where the replay stands and what the lake holds.
pub struct AttemptView<T> {
    pub replay: ReplayView,
    pub lake: LakeView<T>,
}

/// The attempt once the host did what comes next.
pub open spec fn attempt_step<T>(
    batches: Seq<BatchView>,
    attempt: AttemptView<T>,
    effect: spec_fn(T, BatchView) -> T,
) -> AttemptView<T> {
    match attempt.replay.phase {
        ReplayPhase::ReadProgress => AttemptView {
            replay: after_progress_read(batches, attempt.replay, reported(attempt.lake.watermark)),
            ..attempt
        },
        ReplayPhase::Apply(index) => AttemptView {
            replay: after_applied(batches, attempt.replay),
            lake: committed(attempt.lake, batches[index as int], effect),
        },
        _ => attempt,
    }
}

/// The attempt once the host did that many things.
pub open spec fn attempt_after<T>(
    batches: Seq<BatchView>,
    attempt: AttemptView<T>,
    effect: spec_fn(T, BatchView) -> T,
    count: nat,
) -> AttemptView<T>
    decreases count,
{
    if count == 0 {
        attempt
    } else {
        attempt_step(
            batches,
            attempt_after(batches, attempt, effect, (count - 1) as nat),
            effect,
        )
    }
}

/// An attempt at batches on a lake whose progress nobody remembers.
pub open spec fn fresh_attempt<T>(
    batches: Seq<BatchView>,
    lake: LakeView<T>,
    wrap_failures: bool,
) -> AttemptView<T> {
    AttemptView { replay: fresh_replay(batches, None, wrap_failures), lake }
}

/// An attempt at batches from the remembered watermark of a lake.
pub open spec fn remembered_attempt<T>(
    batches: Seq<BatchView>,
    lake: LakeView<T>,
) -> AttemptView<T> {
    AttemptView { replay: remembered_replay(batches, Some(lake.watermark)), lake }
}

/// Whether an attempt is through: nothing failed, and it knows the watermark that
/// it leaves, unless there was nothing to do.
pub open spec fn completed<T>(batches: Seq<BatchView>, attempt: AttemptView<T>) -> bool {
    &&& attempt.replay.phase is Done
    &&& attempt.replay.outcome is None
    &&& batches.len() > 0 ==> attempt.replay.progress == reported(attempt.lake.watermark)
}

/// Whether the next batch of an attempt is the one after the first `done`, which
/// left the watermark.
spec fn resumed(
    batches: Seq<BatchView>,
    replay: ReplayView,
    watermark: Option<EventSequenceKey>,
    done: int,
) -> bool {
    &&& replay.outcome is None
    &&& replay.progress == reported(watermark)
    &&& replay.phase == if done < batches.len() {
        ReplayPhase::Apply(done as usize)
    } else {
        ReplayPhase::Done
    }
}

proof fn lemma_watermark<T>(
    lake: LakeView<T>,
    batches: Seq<BatchView>,
    effect: spec_fn(T, BatchView) -> T,
    done: int,
)
    requires
        0 <= done <= batches.len(),
    ensures
        committed_all(lake, batches.take(done), effect).watermark == if done == 0 {
            lake.watermark
        } else {
            batches[done - 1].last_sequence_key
        },
        done < batches.len() ==> committed_all(lake, batches.take(done + 1), effect) == committed(
            committed_all(lake, batches.take(done), effect),
            batches[done],
            effect,
        ),
{
    if done > 0 {
        assert(batches.take(done).last() == batches[done - 1]);
    }
    if done < batches.len() {
        assert(batches.take(done + 1).drop_last() =~= batches.take(done));
    }
}

/// Reading the watermark that the first `done` batches left resumes after them.
proof fn lemma_reading_resumes(
    batches: Seq<BatchView>,
    replay: ReplayView,
    watermark: Option<EventSequenceKey>,
    done: int,
)
    requires
        in_source_order(batches),
        batches.len() <= usize::MAX,
        0 <= done <= batches.len(),
        done == 0 ==> starts_after(watermark, batches),
        done > 0 ==> watermark == batches[done - 1].last_sequence_key,
        replay.phase is ReadProgress,
        replay.outcome is None,
    ensures
        resumed(
            batches,
            after_progress_read(batches, replay, reported(watermark)),
            watermark,
            done,
        ),
{
    let started = ReplayView { progress: reported(watermark), ..replay };
    if done > 0 {
        assert(batches[done - 1].last_sequence_key is Some);
        law_replay_starts_after_the_watermark(batches, done - 1, started, 0);
    }
}

/// However far an attempt got, the lake holds the batches of a prefix, each of
/// them once, no matter how many of them were committed before the attempt.
proof fn lemma_attempt<T>(
    batches: Seq<BatchView>,
    base: LakeView<T>,
    effect: spec_fn(T, BatchView) -> T,
    wrap_failures: bool,
    done: int,
    count: nat,
)
    requires
        in_source_order(batches),
        0 < batches.len() <= usize::MAX,
        0 <= done <= batches.len(),
        starts_after(base.watermark, batches),
        count > 0,
    ensures
        ({
            let lake = committed_all(base, batches.take(done), effect);
            let reached = if done + count - 1 <= batches.len() {
                done + count - 1
            } else {
                batches.len() as int
            };
            let after = attempt_after(
                batches,
                fresh_attempt(batches, lake, wrap_failures),
                effect,
                count,
            );
            &&& after.lake == committed_all(base, batches.take(reached), effect)
            &&& resumed(batches, after.replay, after.lake.watermark, reached)
        }),
    decreases count,
{
    let lake = committed_all(base, batches.take(done), effect);
    let start = fresh_attempt(batches, lake, wrap_failures);
    assert(crate::batches::is_streaming(batches[0].batch_kind));
    lemma_watermark(base, batches, effect, done);
    if count == 1 {
        lemma_reading_resumes(batches, start.replay, lake.watermark, done);
        assert(attempt_after(batches, start, effect, 0) == start);
    } else {
        let before = attempt_after(batches, start, effect, (count - 1) as nat);
        lemma_attempt(batches, base, effect, wrap_failures, done, (count - 1) as nat);
        let earlier = if done + count - 2 <= batches.len() {
            done + count - 2
        } else {
            batches.len() as int
        };
        lemma_watermark(base, batches, effect, earlier);
        if earlier < batches.len() {
            law_applied_batches_advance_the_watermark(batches, before.replay, earlier);
        }
    }
}

/// A replay of all batches completes the lake: whatever prefix of the batches was
/// committed before, and whatever earlier progress the table had, at the end every
/// batch was committed once and in order, and nothing failed.
pub proof fn law_replay_completes_the_lake<T>(
    batches: Seq<BatchView>,
    base: LakeView<T>,
    effect: spec_fn(T, BatchView) -> T,
    wrap_failures: bool,
    done: int,
    count: nat,
)
    requires
        in_source_order(batches),
        batches.len() <= usize::MAX,
        0 <= done <= batches.len(),
        starts_after(base.watermark, batches),
        count > batches.len() - done,
    ensures
        ({
            let lake = committed_all(base, batches.take(done), effect);
            let after = attempt_after(
                batches,
                fresh_attempt(batches, lake, wrap_failures),
                effect,
                count,
            );
            &&& after.lake == committed_all(base, batches, effect)
            &&& completed(batches, after)
        }),
{
    assert(batches.take(batches.len() as int) =~= batches);
    if batches.len() > 0 {
        lemma_attempt(batches, base, effect, wrap_failures, done, count);
    } else {
        assert(batches.take(done) =~= batches);
        lemma_idle(batches, fresh_attempt(batches, base, wrap_failures), effect, count);
    }
}

/// An attempt that is through does nothing more.
proof fn lemma_idle<T>(
    batches: Seq<BatchView>,
    attempt: AttemptView<T>,
    effect: spec_fn(T, BatchView) -> T,
    count: nat,
)
    requires
        attempt.replay.phase is Done,
    ensures
        attempt_after(batches, attempt, effect, count) == attempt,
    decreases count,
{
    if count > 0 {
        lemma_idle(batches, attempt, effect, (count - 1) as nat);
    }
}

/// An attempt that stops anywhere leaves the lake at a prefix of the batches, no
/// shorter than the one it started from, so that a later replay completes it.
pub proof fn law_stopped_attempt_leaves_a_prefix<T>(
    batches: Seq<BatchView>,
    base: LakeView<T>,
    effect: spec_fn(T, BatchView) -> T,
    wrap_failures: bool,
    done: int,
    count: nat,
)
    requires
        in_source_order(batches),
        batches.len() <= usize::MAX,
        0 <= done <= batches.len(),
        starts_after(base.watermark, batches),
    ensures
        ({
            let lake = committed_all(base, batches.take(done), effect);
            let after = attempt_after(
                batches,
                fresh_attempt(batches, lake, wrap_failures),
                effect,
                count,
            );
            exists|reached: int|
                done <= reached <= batches.len() && after.lake == committed_all(
                    base,
                    #[trigger] batches.take(reached),
                    effect,
                )
        }),
{
    let lake = committed_all(base, batches.take(done), effect);
    if batches.len() == 0 {
        lemma_idle(batches, fresh_attempt(batches, lake, wrap_failures), effect, count);
        assert(batches.take(done) =~= batches);
    } else if count > 0 {
        lemma_attempt(batches, base, effect, wrap_failures, done, count);
    }
    let after = attempt_after(batches, fresh_attempt(batches, lake, wrap_failures), effect, count);
    let reached = if count == 0 || batches.len() == 0 {
        done
    } else if done + count - 1 <= batches.len() {
        done + count - 1
    } else {
        batches.len() as int
    };
    assert(after.lake == committed_all(base, batches.take(reached), effect));
}

/// An attempt from the remembered watermark of a lake is an attempt that has read
/// it.
proof fn lemma_remembered<T>(
    batches: Seq<BatchView>,
    lake: LakeView<T>,
    effect: spec_fn(T, BatchView) -> T,
    count: nat,
)
    requires
        in_source_order(batches),
        batches.len() > 0,
    ensures
        attempt_after(batches, remembered_attempt(batches, lake), effect, count) == attempt_after(
            batches,
            fresh_attempt(batches, lake, names_failures(batches)),
            effect,
            count + 1,
        ),
    decreases count,
{
    let fresh = fresh_attempt(batches, lake, names_failures(batches));
    assert(crate::batches::is_streaming(batches[0].batch_kind));
    if count == 0 {
        assert(attempt_after(batches, fresh, effect, 0) == fresh);
        assert(attempt_step(batches, fresh, effect) == remembered_attempt(batches, lake));
    } else {
        lemma_remembered(batches, lake, effect, (count - 1) as nat);
    }
}

/// A replay from the remembered watermark completes the lake as one that reads it
/// does: whatever prefix of the batches was committed before, at the end every
/// batch was committed once and in order, and nothing failed.
pub proof fn law_remembered_replay_completes_the_lake<T>(
    batches: Seq<BatchView>,
    base: LakeView<T>,
    effect: spec_fn(T, BatchView) -> T,
    done: int,
    count: nat,
)
    requires
        in_source_order(batches),
        batches.len() <= usize::MAX,
        0 <= done <= batches.len(),
        starts_after(base.watermark, batches),
        count >= batches.len() - done,
    ensures
        ({
            let lake = committed_all(base, batches.take(done), effect);
            let after = attempt_after(batches, remembered_attempt(batches, lake), effect, count);
            &&& after.lake == committed_all(base, batches, effect)
            &&& completed(batches, after)
        }),
{
    let lake = committed_all(base, batches.take(done), effect);
    if batches.len() > 0 {
        lemma_remembered(batches, lake, effect, count);
        law_replay_completes_the_lake(
            batches,
            base,
            effect,
            names_failures(batches),
            done,
            count + 1,
        );
    } else {
        assert(batches.take(done) =~= batches);
        lemma_idle(batches, remembered_attempt(batches, lake), effect, count);
    }
}

/// An attempt from the remembered watermark that stops anywhere leaves the lake at
/// a prefix of the batches, no shorter than the one it started from, so that a
/// later replay completes it.
pub proof fn law_stopped_remembered_attempt_leaves_a_prefix<T>(
    batches: Seq<BatchView>,
    base: LakeView<T>,
    effect: spec_fn(T, BatchView) -> T,
    done: int,
    count: nat,
)
    requires
        in_source_order(batches),
        batches.len() <= usize::MAX,
        0 <= done <= batches.len(),
        starts_after(base.watermark, batches),
    ensures
        ({
            let lake = committed_all(base, batches.take(done), effect);
            let after = attempt_after(batches, remembered_attempt(batches, lake), effect, count);
            exists|reached: int|
                done <= reached <= batches.len() && after.lake == committed_all(
                    base,
                    #[trigger] batches.take(reached),
                    effect,
                )
        }),
{
    let lake = committed_all(base, batches.take(done), effect);
    if batches.len() > 0 {
        lemma_remembered(batches, lake, effect, count);
        law_stopped_attempt_leaves_a_prefix(
            batches,
            base,
            effect,
            names_failures(batches),
            done,
            count + 1,
        );
    } else {
        assert(batches.take(done) =~= batches);
        lemma_idle(batches, remembered_attempt(batches, lake), effect, count);
    }
}

/// One backlog follows another: the watermark that the first one leaves lies
/// before the second one, and completing both in turn commits every batch of both
/// once and in order.
pub proof fn law_backlogs_follow_each_other<T>(
    first: Seq<BatchView>,
    second: Seq<BatchView>,
    base: LakeView<T>,
    effect: spec_fn(T, BatchView) -> T,
)
    requires
        in_source_order(first + second),
        starts_after(base.watermark, first + second),
    ensures
        starts_after(base.watermark, first),
        starts_after(committed_all(base, first, effect).watermark, second),
        committed_all(committed_all(base, first, effect), second, effect) == committed_all(
            base,
            first + second,
            effect,
        ),
{
    let both = first + second;
    if first.len() > 0 {
        assert(both[0] == first[0]);
        assert(both[first.len() - 1] == first.last());
        if second.len() > 0 {
            assert(both[first.len() as int] == second[0]);
        }
    } else {
        assert(both =~= second);
    }
    lemma_committed_in_turn(first, second, base, effect);
}

proof fn lemma_committed_in_turn<T>(
    first: Seq<BatchView>,
    second: Seq<BatchView>,
    base: LakeView<T>,
    effect: spec_fn(T, BatchView) -> T,
)
    ensures
        committed_all(committed_all(base, first, effect), second, effect) == committed_all(
            base,
            first + second,
            effect,
        ),
    decreases second.len(),
{
    if second.len() == 0 {
        assert(first + second =~= first);
    } else {
        lemma_committed_in_turn(first, second.drop_last(), base, effect);
        assert((first + second).drop_last() =~= first + second.drop_last());
    }
}

} // verus!
