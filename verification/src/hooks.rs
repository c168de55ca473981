//! Failure injection and counters for integration tests.

use vstd::hash_map::StringHashMap;
use vstd::prelude::*;

use crate::batch_kind::DuckLakeTableBatchKind;
use crate::data::capped_sum;
use crate::error::{optional_text, plain_error, ErrorKind, ErrorView, EtlError};
use crate::schema::{table_id, DuckLakeTableName};

verus! {

/// Failures armed for the next commit of a table, and staging tables created
/// so far.
pub struct DuckLakeTestHooks {
    fail_after_atomic: Option<String>,
    fail_after_copy: Option<String>,
    staging_creations: StringHashMap<usize>,
}

/// Contents of [`DuckLakeTestHooks`].
pub struct HooksView {
    pub fail_after_atomic: Option<Seq<char>>,
    pub fail_after_copy: Option<Seq<char>>,
    pub staging_creations: Map<Seq<char>, usize>,
}

impl View for DuckLakeTestHooks {
    type V = HooksView;

    closed spec fn view(&self) -> HooksView {
        HooksView {
            fail_after_atomic: optional_text(self.fail_after_atomic),
            fail_after_copy: optional_text(self.fail_after_copy),
            staging_creations: self.staging_creations@,
        }
    }
}

/// Hooks with nothing armed and nothing counted.
pub open spec fn idle_hooks() -> HooksView {
    HooksView { fail_after_atomic: None, fail_after_copy: None, staging_creations: Map::empty() }
}

/// The staging tables created for `table` so far.
pub open spec fn creations(hooks: HooksView, table: Seq<char>) -> nat {
    if hooks.staging_creations.dom().contains(table) {
        hooks.staging_creations[table] as nat
    } else {
        0
    }
}

impl DuckLakeTestHooks {
    /// Creates hooks with nothing armed and nothing counted.
    pub fn new() -> (r: DuckLakeTestHooks)
        ensures
            r@ == idle_hooks(),
    {
        DuckLakeTestHooks {
            fail_after_atomic: None,
            fail_after_copy: None,
            staging_creations: StringHashMap::new(),
        }
    }
}

/// Arms one failure after the next streaming batch commit of `table_name`.
pub fn arm_fail_after_atomic_batch_commit_once_for_tests(
    hooks: &mut DuckLakeTestHooks,
    table_name: &str,
)
    ensures
        final(hooks)@ == (HooksView { fail_after_atomic: Some(table_name@), ..old(hooks)@ }),
{
    hooks.fail_after_atomic = Some(table_name.to_owned());
}

/// Arms one failure after the next copy batch commit of `table_name`.
pub fn arm_fail_after_copy_batch_commit_once_for_tests(
    hooks: &mut DuckLakeTestHooks,
    table_name: &str,
)
    ensures
        final(hooks)@ == (HooksView { fail_after_copy: Some(table_name@), ..old(hooks)@ }),
{
    hooks.fail_after_copy = Some(table_name.to_owned());
}

/// Disarms every failure and forgets every count.
pub fn reset_ducklake_test_hooks(hooks: &mut DuckLakeTestHooks)
    ensures
        final(hooks)@ == idle_hooks(),
{
    hooks.fail_after_atomic = None;
    hooks.fail_after_copy = None;
    hooks.staging_creations.clear();
}

/// Returns the staging tables created for `table_name` since the last reset.
pub fn ducklake_staging_table_creations_for_tests(
    hooks: &DuckLakeTestHooks,
    table_name: &str,
) -> (r: usize)
    ensures
        r == creations(hooks@, table_name@),
{
    match hooks.staging_creations.get(table_name) {
        Some(count) => *count,
        None => 0,
    }
}

/// The hooks once one more staging table was created for `table`.
pub open spec fn counted(hooks: HooksView, table: Seq<char>) -> HooksView {
    HooksView {
        staging_creations: hooks.staging_creations.insert(
            table,
            capped_sum(creations(hooks, table), 1) as usize,
        ),
        ..hooks
    }
}

/// Counts one staging table that was created for `table_name`.
pub fn record_staging_table_creation(hooks: &mut DuckLakeTestHooks, table_name: &DuckLakeTableName)
    ensures
        final(hooks)@ == counted(old(hooks)@, table_id(table_name@)),
{
    let id = table_name.id();
    let count: usize = ducklake_staging_table_creations_for_tests(hooks, id.as_str());
    hooks.staging_creations.insert(id, count.saturating_add(1));
}

/// The hooks once staging tables were created for `tables`, in order.
pub open spec fn counted_all(hooks: HooksView, tables: Seq<Seq<char>>) -> HooksView
    decreases tables.len(),
{
    if tables.len() == 0 {
        hooks
    } else {
        counted(counted_all(hooks, tables.drop_last()), tables.last())
    }
}

/// How many of `tables` are `table`.
pub open spec fn occurrences(tables: Seq<Seq<char>>, table: Seq<char>) -> nat
    decreases tables.len(),
{
    if tables.len() == 0 {
        0
    } else {
        occurrences(tables.drop_last(), table) + if tables.last() == table {
            1nat
        } else {
            0nat
        }
    }
}

/// Since the hooks were idle, each table counts exactly the staging tables that
/// were created for it, and counting arms nothing.
pub proof fn law_counts_are_creations_since_the_reset(tables: Seq<Seq<char>>, table: Seq<char>)
    requires
        tables.len() <= usize::MAX,
    ensures
        creations(counted_all(idle_hooks(), tables), table) == occurrences(tables, table),
        occurrences(tables, table) <= tables.len(),
        counted_all(idle_hooks(), tables).fail_after_atomic is None,
        counted_all(idle_hooks(), tables).fail_after_copy is None,
    decreases tables.len(),
{
    if tables.len() > 0 {
        law_counts_are_creations_since_the_reset(tables.drop_last(), table);
    }
}

/// The failure a committed batch reports when its table is armed.
pub open spec fn injected_failure(kind: DuckLakeTableBatchKind) -> ErrorView {
    if kind.is_copy() {
        plain_error(
            ErrorKind::DestinationQueryFailed,
            "DuckLake test hook injected copy post-commit failure"@,
        )
    } else {
        plain_error(
            ErrorKind::DestinationQueryFailed,
            "DuckLake test hook injected post-commit failure"@,
        )
    }
}

/// The table armed for batches of `kind`.
pub open spec fn armed_table(hooks: HooksView, kind: DuckLakeTableBatchKind) -> Option<Seq<char>> {
    if kind.is_copy() {
        hooks.fail_after_copy
    } else {
        hooks.fail_after_atomic
    }
}

/// The hooks once the failure armed for batches of `kind` has fired.
pub open spec fn disarmed(hooks: HooksView, kind: DuckLakeTableBatchKind) -> HooksView {
    if kind.is_copy() {
        HooksView { fail_after_copy: None, ..hooks }
    } else {
        HooksView { fail_after_atomic: None, ..hooks }
    }
}

fn is_armed(armed: &Option<String>, table_name: &DuckLakeTableName) -> (r: bool)
    ensures
        r == (optional_text(*armed) == Some(table_id(table_name@))),
{
    match armed {
        Some(table) => *table == table_name.id(),
        None => false,
    }
}

/// Reports the armed failure once, after a batch of `batch_kind` committed.
pub fn maybe_fail_after_committed_batch_for_tests(
    hooks: &mut DuckLakeTestHooks,
    batch_kind: DuckLakeTableBatchKind,
    table_name: &DuckLakeTableName,
) -> (r: Result<(), EtlError>)
    ensures
        r is Err <==> armed_table(old(hooks)@, batch_kind) == Some(table_id(table_name@)),
        r matches Err(error) ==> error@ == injected_failure(batch_kind),
        final(hooks)@ == if r is Err {
            disarmed(old(hooks)@, batch_kind)
        } else {
            old(hooks)@
        },
{
    match batch_kind {
        DuckLakeTableBatchKind::Copy | DuckLakeTableBatchKind::CopyComplete => {
            if is_armed(&hooks.fail_after_copy, table_name) {
                hooks.fail_after_copy = None;
                return Err(
                    EtlError::new(
                        ErrorKind::DestinationQueryFailed,
                        "DuckLake test hook injected copy post-commit failure",
                    ),
                );
            }
        },
        DuckLakeTableBatchKind::Mutation | DuckLakeTableBatchKind::Truncate => {
            if is_armed(&hooks.fail_after_atomic, table_name) {
                hooks.fail_after_atomic = None;
                return Err(
                    EtlError::new(
                        ErrorKind::DestinationQueryFailed,
                        "DuckLake test hook injected post-commit failure",
                    ),
                );
            }
        },
    }
    Ok(())
}

/// A failure armed for copies fires for the batches of a copy alone and one armed for
/// atomic batches for all others alone. It fires once, and firing leaves the other one
/// armed and the counts as they are.
pub proof fn law_armed_failures_fire_once(
    hooks: HooksView,
    kind: DuckLakeTableBatchKind,
    other: DuckLakeTableBatchKind,
)
    ensures
        armed_table(hooks, kind) == (match kind {
            DuckLakeTableBatchKind::Copy => hooks.fail_after_copy,
            DuckLakeTableBatchKind::CopyComplete => hooks.fail_after_copy,
            DuckLakeTableBatchKind::Mutation => hooks.fail_after_atomic,
            DuckLakeTableBatchKind::Truncate => hooks.fail_after_atomic,
        }),
        armed_table(disarmed(hooks, kind), kind) is None,
        kind.is_copy() != other.is_copy() ==> armed_table(disarmed(hooks, kind), other)
            == armed_table(hooks, other),
        disarmed(hooks, kind).staging_creations == hooks.staging_creations,
        injected_failure(kind).description != injected_failure(other).description
            <==> kind.is_copy() != other.is_copy(),
{
    reveal_strlit("DuckLake test hook injected copy post-commit failure");
    reveal_strlit("DuckLake test hook injected post-commit failure");
    assert("DuckLake test hook injected copy post-commit failure"@.len()
        != "DuckLake test hook injected post-commit failure"@.len());
}

} // verus!
